use trxx_bundle::decode::{decode_bundle, finish_record, parse_bundle, Decoder, FileRecord, RevertError};
use trxx_bundle::dirs::{is_safe_path, parent_dir, DirCache};
use trxx_bundle::encode::{pack_files, process_file, EncodeError, SourceFile};
use trxx_bundle::escape::{escape_markdown_content, unescape_markdown_content};
use trxx_bundle::labels::{load_extension_map, table_from_pairs, LabelTable};
use trxx_bundle::path::{
    is_binary_file, is_markdown_path, is_probably_text, lower_extension, should_ignore_path,
    should_process_file,
};

fn decode_all(text: &[u8]) -> Result<Vec<FileRecord>, RevertError> {
    let mut out = Vec::new();
    for rec in parse_bundle(text) {
        if let Some(f) = finish_record(&rec)? {
            out.push(f);
        }
    }
    Ok(out)
}

fn file(path: &str, content: &[u8], label: &str) -> SourceFile {
    SourceFile {
        rel_path: path.as_bytes().to_vec(),
        content: content.to_vec(),
        label: label.as_bytes().to_vec(),
    }
}

#[test]
fn escape_marks_fences_and_headings_in_markdown() {
    let body = b"# Heading\n```rust\nplain\n  # indented";
    let out = escape_markdown_content(body, true);
    assert_eq!(out, b"\\# Heading\n\\```rust\nplain\n  # indented".to_vec());
}

#[test]
fn escape_leaves_other_files_alone() {
    let body = b"# Heading\n```rust";
    assert_eq!(escape_markdown_content(body, false), body.to_vec());
}

#[test]
fn unescape_takes_one_backslash_off() {
    assert_eq!(unescape_markdown_content(b"\\# Title", true), b"# Title".to_vec());
    assert_eq!(unescape_markdown_content(b"\\```code```", true), b"```code```".to_vec());
    assert_eq!(unescape_markdown_content(b"\\n not escaped", true), b"\\n not escaped".to_vec());
    assert_eq!(unescape_markdown_content(b"\\# Title", false), b"\\# Title".to_vec());
}

#[test]
fn escape_then_unescape_is_identity_per_line() {
    for line in [&b"# Heading"[..], b"```", b"```python", b"plain", b"", b"#"] {
        let e = escape_markdown_content(line, true);
        assert_eq!(unescape_markdown_content(&e, true), line.to_vec());
    }
}

#[test]
fn binary_files_are_raster_images() {
    assert!(is_binary_file(b"img/a.png"));
    assert!(is_binary_file(b"photo.JPG"));
    assert!(is_binary_file(b"x.jpeg"));
    assert!(!is_binary_file(b"logo.svg"));
    assert!(!is_binary_file(b"dir/.png"));
    assert!(!is_binary_file(b"png"));
}

#[test]
fn extension_rules() {
    assert_eq!(lower_extension(b"src/Main.RS"), b"rs".to_vec());
    assert_eq!(lower_extension(b"a.tar.gz"), b"gz".to_vec());
    assert_eq!(lower_extension(b"dir.d/Makefile"), Vec::<u8>::new());
    assert_eq!(lower_extension(b".gitignore"), Vec::<u8>::new());
    assert_eq!(lower_extension(b"a/.."), Vec::<u8>::new());
    assert!(is_markdown_path(b"docs/README.MD"));
    assert!(!is_markdown_path(b"docs/.md"));
}

#[test]
fn files_taken_into_a_bundle() {
    assert!(should_process_file(b"/r/src/main.rs", Some(10), false));
    assert!(!should_process_file(b"/r/big.rs", Some(2 * 1024 * 1024), true));
    assert!(should_process_file(b"/r/limit.rs", Some(1024 * 1024), false));
    assert!(should_process_file(b"/r/huge.svg", Some(5 * 1024 * 1024), false));
    assert!(should_process_file(b"/r/huge.png", Some(5 * 1024 * 1024), false));
    assert!(should_process_file(b"/r/Makefile", Some(10), true));
    assert!(!should_process_file(b"/r/blob", Some(10), false));
    assert!(!should_process_file(b"/r/app.exe", Some(10), true));
    assert!(should_process_file(b"/r/page.WXML", None, false));
}

#[test]
fn ignored_paths() {
    assert!(should_ignore_path(b"/r/.git/config"));
    assert!(should_ignore_path(b"/r/target/debug/x.rs"));
    assert!(should_ignore_path(b"/r/web/node_modules/a.js"));
    assert!(should_ignore_path(b"/r/all_content.md"));
    assert!(should_ignore_path(b"/r/Cargo.lock"));
    assert!(!should_ignore_path(b"/r/src/main.rs"));
    assert!(!should_ignore_path(b"/r/targets/a.rs"));
}

#[test]
fn sniffing_files_without_extension() {
    assert!(is_probably_text(b"hello\n"));
    assert!(is_probably_text(b""));
    assert!(!is_probably_text(b"a\0b"));
    assert!(!is_probably_text(&[0xff, 0xfe, 0x41]));
    let mut late_nul = vec![b'a'; 600];
    late_nul[550] = 0;
    assert!(is_probably_text(&late_nul));
    late_nul[511] = 0;
    assert!(!is_probably_text(&late_nul));
}

#[test]
fn text_record_layout() {
    let r = process_file(b"a/b.txt", b"hello\nworld", b"text").unwrap();
    assert_eq!(r, b"###  trxx:a/b.txt\n\n```text\n\nhello\nworld\n\n```\n\n".to_vec());
    let r = process_file(b"Makefile", b"all:", b"").unwrap();
    assert_eq!(r, b"###  trxx:Makefile\n\n```\n\nall:\n\n```\n\n".to_vec());
}

#[test]
fn binary_record_layout() {
    let r = process_file(b"img.png", &[1, 2, 3, 4], b"ignored").unwrap();
    assert_eq!(r, b"###  trxx:img.png\n\n```binary\nAQIDBA==\n```\n\n".to_vec());
}

#[test]
fn non_utf8_text_is_refused() {
    let r = process_file(b"bad.txt", &[0x66, 0xff, 0x66], b"text");
    assert_eq!(r, Err(EncodeError::NotUtf8 { path: b"bad.txt".to_vec() }));
    let files = vec![file("ok.txt", b"fine", ""), file("bad.rs", &[0xc0], "rust"), file("bad2.rs", &[0xc0], "")];
    assert_eq!(pack_files(&files), Err(EncodeError::NotUtf8 { path: b"bad.rs".to_vec() }));
}

#[test]
fn decode_plain_record() {
    let bundle = b"###  trxx:a/b.txt\n\n```\n\nhello\nworld\n\n```\n\n";
    let files = decode_all(bundle).unwrap();
    assert_eq!(files.len(), 1);
    assert_eq!(files[0].path, b"a/b.txt".to_vec());
    assert_eq!(files[0].content, b"hello\nworld".to_vec());
}

#[test]
fn markdown_record_is_escaped_and_restored() {
    let content = b"# Title\n```code```";
    let bundle = process_file(b"notes.md", content, b"markdown").unwrap();
    assert_eq!(
        bundle,
        b"###  trxx:notes.md\n\n```markdown\n\n\\# Title\n\\```code```\n\n```\n\n".to_vec()
    );
    let files = decode_all(&bundle).unwrap();
    assert_eq!(files.len(), 1);
    assert_eq!(files[0].path, b"notes.md".to_vec());
    assert_eq!(files[0].content, content.to_vec());
}

#[test]
fn empty_record_writes_nothing() {
    let bundle = b"###  trxx:empty.txt\n\n###  trxx:b.txt\n\n```\n\nx\n\n```\n\n";
    let files = decode_all(bundle).unwrap();
    assert_eq!(files.len(), 1);
    assert_eq!(files[0].path, b"b.txt".to_vec());
    assert_eq!(files[0].content, b"x".to_vec());
    let only_fences = b"###  trxx:blank.txt\n\n```\n\n\n```\n\n";
    assert_eq!(decode_all(only_fences).unwrap(), Vec::new());
}

#[test]
fn round_trip_of_several_files() {
    let png: Vec<u8> = (0u8..=255).collect();
    let files = vec![
        file("src/main.rs", b"fn main() {\n    println!(\"hi\");\n}", "rust"),
        file("README.md", b"# Title\n\n```sh\ncargo run\n```\ntext # not a heading", "markdown"),
        file("img/logo.png", &png, ""),
        file("notes", b"line one\n\n\nline four", ""),
    ];
    let bundle = pack_files(&files).unwrap();
    let back = decode_all(&bundle).unwrap();
    assert_eq!(back.len(), files.len());
    for (f, b) in files.iter().zip(back.iter()) {
        assert_eq!(b.path, f.rel_path);
        assert_eq!(b.content, f.content);
    }
}

#[test]
fn binary_round_trip_of_odd_lengths() {
    for n in 1usize..8 {
        let bytes: Vec<u8> = (0..n).map(|i| (i * 37 + 200) as u8).collect();
        let bundle = process_file(b"p.jpg", &bytes, b"").unwrap();
        let back = decode_all(&bundle).unwrap();
        assert_eq!(back.len(), 1);
        assert_eq!(back[0].content, bytes);
    }
}

#[test]
fn binary_tag_decides_base64() {
    let tagged = b"###  trxx:a.dat\n\n```binary\naGk=\n```\n\n";
    assert_eq!(decode_all(tagged).unwrap()[0].content, b"hi".to_vec());
    let untagged = b"###  trxx:a.dat\n\n```text\n\naGk=\n\n```\n\n";
    assert_eq!(decode_all(untagged).unwrap()[0].content, b"aGk=".to_vec());
    let recs = parse_bundle(tagged);
    assert!(recs[0].is_binary);
    assert!(!parse_bundle(untagged)[0].is_binary);
}

#[test]
fn malformed_base64_is_an_error() {
    let bundle = b"###  trxx:x.png\n\n```binary\n!!!!\n```\n\n";
    assert_eq!(decode_all(bundle), Err(RevertError::InvalidBase64 { path: b"x.png".to_vec() }));
}

#[test]
fn crlf_bundle_decodes() {
    let bundle = b"###  trxx:a.txt\r\n\r\n```\r\n\r\none\r\ntwo\r\n\r\n```\r\n";
    let files = decode_all(bundle).unwrap();
    assert_eq!(files[0].content, b"one\ntwo".to_vec());
}

#[test]
fn header_path_is_trimmed() {
    let bundle = b"###  trxx:  dir/f.txt  \n\n```\n\nx\n\n```\n";
    assert_eq!(decode_all(bundle).unwrap()[0].path, b"dir/f.txt".to_vec());
    let tabs = b"###  trxx:\t\x0bg.txt\x0c \n\n```\n\ny\n\n```\n";
    assert_eq!(decode_all(tabs).unwrap()[0].path, b"g.txt".to_vec());
}

#[test]
fn decoding_twice_gives_the_same_records() {
    let bundle = pack_files(&[file("a.txt", b"alpha", ""), file("b/c.md", b"# c", "markdown")]).unwrap();
    assert_eq!(parse_bundle(&bundle), parse_bundle(&bundle));
    assert_eq!(decode_all(&bundle), decode_all(&bundle));
}

#[test]
fn decoder_fed_line_by_line() {
    let mut d = Decoder::new();
    assert!(d.feed(b"###  trxx:a.txt").is_none());
    assert!(d.feed(b"").is_none());
    assert!(d.feed(b"```").is_none());
    assert!(d.feed(b"body").is_none());
    assert!(d.feed(b"```").is_none());
    assert!(d.feed(b"stray text outside the fence").is_none());
    let r = d.feed(b"###  trxx:b.txt").unwrap();
    assert_eq!(r.path, b"a.txt".to_vec());
    assert_eq!(r.body, b"body\n".to_vec());
    assert!(d.finish().is_none());
}

#[test]
fn directories_created_once() {
    let mut cache = DirCache::new();
    assert!(cache.should_create(b"a/b"));
    assert!(!cache.should_create(b"a/b"));
    assert!(cache.should_create(b"a"));
    assert_eq!(parent_dir(b"a/b/c.txt"), b"a/b".to_vec());
    assert_eq!(parent_dir(b"c.txt"), Vec::<u8>::new());
}

#[test]
fn label_lookup() {
    let mut t = LabelTable::new();
    t.insert(b"rs".to_vec(), b"rust".to_vec());
    t.insert(b"md".to_vec(), b"markdown".to_vec());
    t.insert(b"rs".to_vec(), b"rust2021".to_vec());
    assert_eq!(t.label_for(b"src/Main.RS"), b"rust2021".to_vec());
    assert_eq!(t.label_for(b"x.md"), b"markdown".to_vec());
    assert_eq!(t.label_for(b"x.zig"), Vec::<u8>::new());
    assert_eq!(t.get(b"md"), Some(b"markdown".to_vec()));
    assert_eq!(t.get(b"py"), None);
}

#[test]
fn traversal_paths_are_unsafe() {
    assert!(is_safe_path(b"a/b.txt"));
    assert!(is_safe_path(b"a/..b/c"));
    assert!(is_safe_path(b"..x"));
    assert!(!is_safe_path(b""));
    assert!(!is_safe_path(b"/etc/passwd"));
    assert!(!is_safe_path(b"../x"));
    assert!(!is_safe_path(b"a/../../x"));
    assert!(!is_safe_path(b"a/.."));
}

#[test]
fn built_in_label_table() {
    let t = load_extension_map().unwrap();
    assert_eq!(t.label_for(b"src/lib.rs"), b"rust".to_vec());
    assert_eq!(t.label_for(b"conf/app.YML"), b"yaml".to_vec());
    assert_eq!(t.label_for(b"page.ux"), b"html".to_vec());
    assert_eq!(t.label_for(b"notes.txt"), Vec::<u8>::new());
    assert_eq!(t.get(b".txt"), Some(b"text".to_vec()));
}

#[test]
fn table_from_entries() {
    let t = table_from_pairs(&vec![
        (b"c".to_vec(), b"c".to_vec()),
        (b"h".to_vec(), b"header".to_vec()),
        (b"c".to_vec(), b"clang".to_vec()),
    ]);
    assert_eq!(t.get(b"c"), Some(b"clang".to_vec()));
    assert_eq!(t.get(b"h"), Some(b"header".to_vec()));
    assert_eq!(t.get(b"x"), None);
}

#[test]
fn non_canonical_base64_is_an_error() {
    for body in [&b"aGk"[..], b"aGl=", b"a Gk=", b"aGk=="] {
        let mut bundle = b"###  trxx:y.jpg\n\n```binary\n".to_vec();
        bundle.extend_from_slice(body);
        bundle.extend_from_slice(b"\n```\n");
        assert_eq!(decode_all(&bundle), Err(RevertError::InvalidBase64 { path: b"y.jpg".to_vec() }));
    }
}

#[test]
fn error_stops_at_the_malformed_record() {
    let bundle = b"###  trxx:a.txt\n\n```\n\nfine\n\n```\n\n###  trxx:b.png\n\n```binary\n@@@@\n```\n\n###  trxx:c.txt\n\n```\n\nlater\n\n```\n";
    let recs = parse_bundle(bundle);
    assert_eq!(recs.len(), 3);
    assert_eq!(finish_record(&recs[0]).unwrap().unwrap().content, b"fine".to_vec());
    assert_eq!(finish_record(&recs[1]), Err(RevertError::InvalidBase64 { path: b"b.png".to_vec() }));
}

#[test]
fn unicode_white_space_around_a_payload_is_trimmed() {
    let bundle = "###  trxx:h.png\n\n```binary\n\u{a0}aGk=\u{3000}\u{2009}\n```\n".as_bytes();
    let files = decode_all(bundle).unwrap();
    assert_eq!(files[0].content, b"hi".to_vec());
    let only_space = "###  trxx:e.png\n\n```binary\n\u{a0}\u{85}\u{1680}\n```\n".as_bytes();
    assert_eq!(decode_all(only_space).unwrap(), Vec::new());
}

#[test]
fn unicode_white_space_around_a_header_path_is_trimmed() {
    let bundle = "###  trxx:\u{3000}d/e.txt\u{a0}\u{205f}\n\n```\n\nz\n\n```\n".as_bytes();
    let files = decode_all(bundle).unwrap();
    assert_eq!(files[0].path, b"d/e.txt".to_vec());
    let inner = "###  trxx:a\u{a0}b.txt\n\n```\n\nz\n\n```\n".as_bytes();
    assert_eq!(decode_all(inner).unwrap()[0].path, "a\u{a0}b.txt".as_bytes().to_vec());
}

#[test]
fn text_bodies_keep_other_white_space() {
    let bundle = "###  trxx:w.txt\n\n```\n\n\u{a0} x \n\n```\n".as_bytes();
    assert_eq!(decode_all(bundle).unwrap()[0].content, "\u{a0} x ".as_bytes().to_vec());
}

#[test]
fn decode_bundle_stops_at_the_first_refused_record() {
    let bundle = b"###  trxx:a.txt\n\n```\n\nfine\n\n```\n\n###  trxx:empty.txt\n\n###  trxx:b.png\n\n```binary\n@@@@\n```\n\n###  trxx:c.txt\n\n```\n\nlater\n\n```\n";
    let (files, stopped) = decode_bundle(bundle);
    assert_eq!(files.len(), 1);
    assert_eq!(files[0].path, b"a.txt".to_vec());
    assert_eq!(files[0].content, b"fine".to_vec());
    assert_eq!(stopped, Some(RevertError::InvalidBase64 { path: b"b.png".to_vec() }));
}

#[test]
fn decode_bundle_twice_gives_the_same_writes() {
    let bundle = pack_files(&[file("x/a.md", b"# a\n```", "markdown"), file("p.png", &[9, 8, 7, 6], ""), file("x/a.md", b"again", "")]).unwrap();
    let first = decode_bundle(&bundle);
    let second = decode_bundle(&bundle);
    assert_eq!(first, second);
    assert_eq!(first.1, None);
    assert_eq!(first.0.len(), 3);
    assert_eq!(first.0[2].content, b"again".to_vec());
}
