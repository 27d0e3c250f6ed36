//! Which files a bundle takes, and how: extensions, ignore rules and the
//! sniffing of files without an extension.
use vstd::prelude::*;
use crate::bytes::{
    contains, contains_bytes, ends_with, ends_with_bytes, eq_bytes, find_last, is_utf8, push_range,
    last_index, lemma_last_index,
};

verus! {

pub const SLASH: u8 = 47;

pub const DOT: u8 = 46;

/// Files over this many bytes are left out, unless they are images.
pub const SIZE_LIMIT: u64 = 1048576;

/// How many leading bytes of a file without extension are searched for a NUL.
pub const SNIFF_LEN: usize = 512;

/// The last component of a `/`-separated path.
pub open spec fn file_name(p: Seq<u8>) -> Seq<u8> {
    p.skip(last_index(p, SLASH) + 1)
}

/// The part of the file name after its last dot; empty where there is none,
/// where the dot opens the name, and for `..`.
pub open spec fn extension_of(p: Seq<u8>) -> Seq<u8> {
    let f = file_name(p);
    let k = last_index(f, DOT);
    if f == seq![DOT, DOT] || k <= 0 {
        Seq::empty()
    } else {
        f.skip(k + 1)
    }
}

pub open spec fn lower_byte(b: u8) -> u8 {
    if 65 <= b <= 90 {
        (b + 32) as u8
    } else {
        b
    }
}

/// ASCII letters made lower case, other bytes kept.
pub open spec fn ascii_lower(s: Seq<u8>) -> Seq<u8> {
    s.map_values(|b: u8| lower_byte(b))
}

/// The extension of a path in lower case.
pub open spec fn lower_ext(p: Seq<u8>) -> Seq<u8> {
    ascii_lower(extension_of(p))
}

/// A path whose extension is `md`: its body is escaped in a bundle.
pub open spec fn markdown_path(p: Seq<u8>) -> bool {
    lower_ext(p) == seq![109u8, 100u8]
}

/// Extensions of images that are always taken into a bundle.
pub open spec fn image_extensions() -> Seq<Seq<u8>> {
    seq![
        seq![112u8, 110u8, 103u8],  // png
        seq![106u8, 112u8, 103u8],  // jpg
        seq![106u8, 112u8, 101u8, 103u8],  // jpeg
        seq![115u8, 118u8, 103u8],  // svg
    ]
}

pub open spec fn image_extension(e: Seq<u8>) -> bool {
    image_extensions().contains(e)
}

/// Extensions of images that a bundle carries as base64.
pub open spec fn binary_extensions() -> Seq<Seq<u8>> {
    seq![
        seq![112u8, 110u8, 103u8],  // png
        seq![106u8, 112u8, 103u8],  // jpg
        seq![106u8, 112u8, 101u8, 103u8],  // jpeg
    ]
}

pub open spec fn binary_extension(e: Seq<u8>) -> bool {
    binary_extensions().contains(e)
}

/// Extensions of text files that are taken into a bundle.
pub open spec fn text_extensions() -> Seq<Seq<u8>> {
    seq![
        seq![116u8, 120u8, 116u8],  // txt
        seq![109u8, 100u8],  // md
        seq![114u8, 115u8],  // rs
        seq![106u8, 115u8],  // js
        seq![116u8, 115u8],  // ts
        seq![106u8, 115u8, 111u8, 110u8],  // json
        seq![121u8, 97u8, 109u8, 108u8],  // yaml
        seq![121u8, 109u8, 108u8],  // yml
        seq![116u8, 111u8, 109u8, 108u8],  // toml
        seq![99u8, 115u8, 115u8],  // css
        seq![104u8, 116u8, 109u8, 108u8],  // html
        seq![104u8, 116u8, 109u8],  // htm
        seq![120u8, 109u8, 108u8],  // xml
        seq![99u8, 111u8, 110u8, 102u8],  // conf
        seq![99u8, 102u8, 103u8],  // cfg
        seq![105u8, 110u8, 105u8],  // ini
        seq![108u8, 111u8, 103u8],  // log
        seq![115u8, 104u8],  // sh
        seq![98u8, 97u8, 115u8, 104u8],  // bash
        seq![112u8, 121u8],  // py
        seq![106u8, 97u8, 118u8, 97u8],  // java
        seq![99u8, 112u8, 112u8],  // cpp
        seq![99u8],  // c
        seq![104u8],  // h
        seq![104u8, 112u8, 112u8],  // hpp
        seq![99u8, 115u8],  // cs
        seq![103u8, 111u8],  // go
        seq![114u8, 98u8],  // rb
        seq![112u8, 104u8, 112u8],  // php
        seq![115u8, 113u8, 108u8],  // sql
        seq![118u8, 117u8, 101u8],  // vue
        seq![106u8, 115u8, 120u8],  // jsx
        seq![116u8, 115u8, 120u8],  // tsx
        seq![103u8, 105u8, 116u8, 105u8, 103u8, 110u8, 111u8, 114u8, 101u8],  // gitignore
        seq![101u8, 110u8, 118u8],  // env
        seq![114u8, 99u8],  // rc
        seq![101u8, 100u8, 105u8, 116u8, 111u8, 114u8, 99u8, 111u8, 110u8, 102u8, 105u8, 103u8],  // editorconfig
        seq![103u8, 114u8, 97u8, 100u8, 108u8, 101u8],  // gradle
        seq![112u8, 114u8, 111u8, 112u8, 101u8, 114u8, 116u8, 105u8, 101u8, 115u8],  // properties
        seq![98u8, 97u8, 116u8],  // bat
        seq![99u8, 109u8, 100u8],  // cmd
        seq![112u8, 115u8, 49u8],  // ps1
        seq![100u8, 111u8, 99u8, 107u8, 101u8, 114u8, 102u8, 105u8, 108u8, 101u8],  // dockerfile
        seq![108u8, 111u8, 99u8, 107u8],  // lock
        seq![99u8, 111u8, 110u8, 102u8, 105u8, 103u8],  // config
        seq![116u8, 101u8, 109u8, 112u8, 108u8, 97u8, 116u8, 101u8],  // template
        seq![118u8, 105u8, 109u8],  // vim
        seq![108u8, 117u8, 97u8],  // lua
        seq![115u8, 118u8, 103u8],  // svg
        seq![119u8, 120u8, 115u8, 115u8],  // wxss
        seq![119u8, 120u8, 109u8, 108u8],  // wxml
        seq![117u8, 120u8],  // ux
    ]
}

pub open spec fn text_extension(e: Seq<u8>) -> bool {
    text_extensions().contains(e)
}

fn image_table() -> (r: Vec<Vec<u8>>)
    ensures
        r@.map_values(|v: Vec<u8>| v@) == image_extensions(),
{
    let r = vec![
        vec![112u8, 110u8, 103u8],  // png
        vec![106u8, 112u8, 103u8],  // jpg
        vec![106u8, 112u8, 101u8, 103u8],  // jpeg
        vec![115u8, 118u8, 103u8],  // svg
    ];
    assert(r@.map_values(|v: Vec<u8>| v@) =~= image_extensions());
    r
}

fn binary_table() -> (r: Vec<Vec<u8>>)
    ensures
        r@.map_values(|v: Vec<u8>| v@) == binary_extensions(),
{
    let r = vec![
        vec![112u8, 110u8, 103u8],  // png
        vec![106u8, 112u8, 103u8],  // jpg
        vec![106u8, 112u8, 101u8, 103u8],  // jpeg
    ];
    assert(r@.map_values(|v: Vec<u8>| v@) =~= binary_extensions());
    r
}

fn text_table() -> (r: Vec<Vec<u8>>)
    ensures
        r@.map_values(|v: Vec<u8>| v@) == text_extensions(),
{
    let r = vec![
        vec![116u8, 120u8, 116u8],  // txt
        vec![109u8, 100u8],  // md
        vec![114u8, 115u8],  // rs
        vec![106u8, 115u8],  // js
        vec![116u8, 115u8],  // ts
        vec![106u8, 115u8, 111u8, 110u8],  // json
        vec![121u8, 97u8, 109u8, 108u8],  // yaml
        vec![121u8, 109u8, 108u8],  // yml
        vec![116u8, 111u8, 109u8, 108u8],  // toml
        vec![99u8, 115u8, 115u8],  // css
        vec![104u8, 116u8, 109u8, 108u8],  // html
        vec![104u8, 116u8, 109u8],  // htm
        vec![120u8, 109u8, 108u8],  // xml
        vec![99u8, 111u8, 110u8, 102u8],  // conf
        vec![99u8, 102u8, 103u8],  // cfg
        vec![105u8, 110u8, 105u8],  // ini
        vec![108u8, 111u8, 103u8],  // log
        vec![115u8, 104u8],  // sh
        vec![98u8, 97u8, 115u8, 104u8],  // bash
        vec![112u8, 121u8],  // py
        vec![106u8, 97u8, 118u8, 97u8],  // java
        vec![99u8, 112u8, 112u8],  // cpp
        vec![99u8],  // c
        vec![104u8],  // h
        vec![104u8, 112u8, 112u8],  // hpp
        vec![99u8, 115u8],  // cs
        vec![103u8, 111u8],  // go
        vec![114u8, 98u8],  // rb
        vec![112u8, 104u8, 112u8],  // php
        vec![115u8, 113u8, 108u8],  // sql
        vec![118u8, 117u8, 101u8],  // vue
        vec![106u8, 115u8, 120u8],  // jsx
        vec![116u8, 115u8, 120u8],  // tsx
        vec![103u8, 105u8, 116u8, 105u8, 103u8, 110u8, 111u8, 114u8, 101u8],  // gitignore
        vec![101u8, 110u8, 118u8],  // env
        vec![114u8, 99u8],  // rc
        vec![101u8, 100u8, 105u8, 116u8, 111u8, 114u8, 99u8, 111u8, 110u8, 102u8, 105u8, 103u8],  // editorconfig
        vec![103u8, 114u8, 97u8, 100u8, 108u8, 101u8],  // gradle
        vec![112u8, 114u8, 111u8, 112u8, 101u8, 114u8, 116u8, 105u8, 101u8, 115u8],  // properties
        vec![98u8, 97u8, 116u8],  // bat
        vec![99u8, 109u8, 100u8],  // cmd
        vec![112u8, 115u8, 49u8],  // ps1
        vec![100u8, 111u8, 99u8, 107u8, 101u8, 114u8, 102u8, 105u8, 108u8, 101u8],  // dockerfile
        vec![108u8, 111u8, 99u8, 107u8],  // lock
        vec![99u8, 111u8, 110u8, 102u8, 105u8, 103u8],  // config
        vec![116u8, 101u8, 109u8, 112u8, 108u8, 97u8, 116u8, 101u8],  // template
        vec![118u8, 105u8, 109u8],  // vim
        vec![108u8, 117u8, 97u8],  // lua
        vec![115u8, 118u8, 103u8],  // svg
        vec![119u8, 120u8, 115u8, 115u8],  // wxss
        vec![119u8, 120u8, 109u8, 108u8],  // wxml
        vec![117u8, 120u8],  // ux
    ];
    let ghost words = r@.map_values(|v: Vec<u8>| v@);
    let ghost want = text_extensions();
    assert(words.len() == want.len());
    assert forall|k: int| 0 <= k < want.len() implies words[k] == want[k] by {
        assert(words[k] == r@[k]@);
    }
    assert(words =~= want);
    r
}

/// Whether `e` is one of the entries of `table`.
fn is_one_of(e: &[u8], table: &Vec<Vec<u8>>) -> (r: bool)
    ensures
        r == table@.map_values(|v: Vec<u8>| v@).contains(e@),
{
    let ghost words = table@.map_values(|v: Vec<u8>| v@);
    let mut i: usize = 0;
    while i < table.len()
        invariant
            i <= table@.len(),
            words == table@.map_values(|v: Vec<u8>| v@),
            forall|k: int| 0 <= k < i ==> words[k] != e@,
        decreases table@.len() - i,
    {
        if eq_bytes(&table[i], e) {
            assert(words[i as int] == e@);
            return true;
        }
        i = i + 1;
    }
    false
}

fn is_image_extension(e: &[u8]) -> (r: bool)
    ensures
        r == image_extension(e@),
{
    is_one_of(e, &image_table())
}

fn is_binary_extension(e: &[u8]) -> (r: bool)
    ensures
        r == binary_extension(e@),
{
    is_one_of(e, &binary_table())
}

fn is_text_extension(e: &[u8]) -> (r: bool)
    ensures
        r == text_extension(e@),
{
    is_one_of(e, &text_table())
}

/// Whether a file goes into a bundle, from its lower-case extension, its size
/// when known, and whether its contents look like text (read only for files
/// without extension).
pub open spec fn admitted(e: Seq<u8>, size: Option<u64>, looks_like_text: bool) -> bool {
    if image_extension(e) {
        true
    } else if size is Some && size->Some_0 > SIZE_LIMIT && e != seq![115u8, 118u8, 103u8] {
        false
    } else if e.len() == 0 {
        looks_like_text
    } else {
        text_extension(e)
    }
}

/// Paths inside version control, build output or dependency caches, the
/// bundle itself and lock files.
pub open spec fn ignored(p: Seq<u8>) -> bool {
    contains(p, seq![47u8, 46u8, 103u8, 105u8, 116u8, 47u8]) || contains(
        p,
        seq![47u8, 116u8, 97u8, 114u8, 103u8, 101u8, 116u8, 47u8],
    ) || contains(
        p,
        seq![47u8, 110u8, 111u8, 100u8, 101u8, 95u8, 109u8, 111u8, 100u8, 117u8, 108u8, 101u8, 115u8, 47u8],
    ) || file_name(p) == bundle_name() || ends_with(
        file_name(p),
        seq![46u8, 108u8, 111u8, 99u8, 107u8],
    )
}

/// `all_content.md`, the name of the bundle that packing writes.
pub open spec fn bundle_name() -> Seq<u8> {
    seq![97u8, 108u8, 108u8, 95u8, 99u8, 111u8, 110u8, 116u8, 101u8, 110u8, 116u8, 46u8, 109u8, 100u8]
}

/// Contents that look like text: valid UTF-8 with no NUL among the first bytes.
pub open spec fn probably_text(b: Seq<u8>) -> bool {
    vstd::utf8::valid_utf8(b) && forall|k: int| 0 <= k < b.len() && k < SNIFF_LEN ==> b[k] != 0
}

/// Start of the file name within `p`.
fn file_name_start(p: &[u8]) -> (r: usize)
    ensures
        r <= p@.len(),
        p@.skip(r as int) == file_name(p@),
{
    proof {
        lemma_last_index(p@, SLASH);
        assert(p@.take(p@.len() as int) =~= p@);
    }
    match find_last(p, p.len(), SLASH) {
        Some(k) => k + 1,
        None => 0,
    }
}

/// The file name of `path`.
fn file_name_bytes(path: &[u8]) -> (r: Vec<u8>)
    ensures
        r@ == file_name(path@),
{
    let start = file_name_start(path);
    let mut name: Vec<u8> = Vec::new();
    push_range(&mut name, path, start, path.len());
    assert(path@.subrange(start as int, path@.len() as int) =~= path@.skip(start as int));
    name
}

/// The extension of `path` in lower case (empty where it has none).
pub fn lower_extension(path: &[u8]) -> (r: Vec<u8>)
    ensures
        r@ == lower_ext(path@),
{
    let name = file_name_bytes(path);
    let ghost f = name@;
    let mut from: usize = name.len();
    let dotdot = [DOT, DOT];
    assert(dotdot@ =~= seq![DOT, DOT]);
    proof {
        lemma_last_index(f, DOT);
        assert(f.take(f.len() as int) =~= f);
    }
    if !eq_bytes(&name, &dotdot) {
        match find_last(&name, name.len(), DOT) {
            Some(d) => {
                if d > 0 {
                    from = d + 1;
                }
            },
            None => {},
        }
    }
    let ghost e = if from < name@.len() { name@.skip(from as int) } else { Seq::<u8>::empty() };
    assert(e == extension_of(path@)) by {
        if from <= name@.len() {
            assert(name@.skip(name@.len() as int) =~= Seq::<u8>::empty());
        }
    }
    let mut out: Vec<u8> = Vec::new();
    let mut i: usize = if from < name.len() { from } else { name.len() };
    let ghost lo = i;
    assert(name@.skip(lo as int) =~= e);
    while i < name.len()
        invariant
            lo <= i <= name@.len(),
            out@ == ascii_lower(name@.subrange(lo as int, i as int)),
        decreases name@.len() - i,
    {
        let b = name[i];
        let l = if 65 <= b && b <= 90 { b + 32 } else { b };
        out.push(l);
        assert(ascii_lower(name@.subrange(lo as int, i + 1)) =~= ascii_lower(
            name@.subrange(lo as int, i as int),
        ).push(lower_byte(b)));
        i = i + 1;
    }
    assert(name@.subrange(lo as int, name@.len() as int) =~= e);
    out
}

/// Whether `path` names a markdown file.
pub fn is_markdown_path(path: &[u8]) -> (r: bool)
    ensures
        r == markdown_path(path@),
{
    let e = lower_extension(path);
    let md = [109u8, 100u8];
    assert(md@ =~= seq![109u8, 100u8]);
    eq_bytes(&e, &md)
}

/// Whether `path` is an image that a bundle carries as base64.
pub fn is_binary_file(path: &[u8]) -> (r: bool)
    ensures
        r == binary_extension(lower_ext(path@)),
{
    let e = lower_extension(path);
    is_binary_extension(&e)
}

/// Whether a file goes into a bundle. `size` is its length in bytes where it
/// is known; `looks_like_text` is what `is_probably_text` says of its contents,
/// and counts only where the path has no extension.
pub fn should_process_file(path: &[u8], size: Option<u64>, looks_like_text: bool) -> (r: bool)
    ensures
        r == admitted(lower_ext(path@), size, looks_like_text),
{
    let e = lower_extension(path);
    if is_image_extension(&e) {
        return true;
    }
    let svg = [115u8, 118u8, 103u8];
    assert(svg@ =~= seq![115u8, 118u8, 103u8]);
    match size {
        Some(n) => {
            if n > SIZE_LIMIT && !eq_bytes(&e, &svg) {
                return false;
            }
        },
        None => {},
    }
    if e.len() == 0 {
        return looks_like_text;
    }
    is_text_extension(&e)
}

/// Whether `path` is left out of a bundle whatever its contents.
pub fn should_ignore_path(path: &[u8]) -> (r: bool)
    ensures
        r == ignored(path@),
{
    let git = [47u8, 46u8, 103u8, 105u8, 116u8, 47u8];
    let target = [47u8, 116u8, 97u8, 114u8, 103u8, 101u8, 116u8, 47u8];
    let modules = [47u8, 110u8, 111u8, 100u8, 101u8, 95u8, 109u8, 111u8, 100u8, 117u8, 108u8, 101u8, 115u8, 47u8];
    let bundle = [97u8, 108u8, 108u8, 95u8, 99u8, 111u8, 110u8, 116u8, 101u8, 110u8, 116u8, 46u8, 109u8, 100u8];
    let lock = [46u8, 108u8, 111u8, 99u8, 107u8];
    assert(git@ =~= seq![47u8, 46u8, 103u8, 105u8, 116u8, 47u8]);
    assert(target@ =~= seq![47u8, 116u8, 97u8, 114u8, 103u8, 101u8, 116u8, 47u8]);
    assert(modules@ =~= seq![47u8, 110u8, 111u8, 100u8, 101u8, 95u8, 109u8, 111u8, 100u8, 117u8, 108u8, 101u8, 115u8, 47u8]);
    assert(bundle@ =~= bundle_name());
    assert(lock@ =~= seq![46u8, 108u8, 111u8, 99u8, 107u8]);
    if contains_bytes(path, &git) || contains_bytes(path, &target) || contains_bytes(path, &modules) {
        return true;
    }
    let name = file_name_bytes(path);
    eq_bytes(&name, &bundle) || ends_with_bytes(&name, &lock)
}

/// Whether contents read from a file without extension look like text.
pub fn is_probably_text(contents: &[u8]) -> (r: bool)
    ensures
        r == probably_text(contents@),
{
    if !is_utf8(contents) {
        return false;
    }
    let mut k: usize = 0;
    while k < contents.len() && k < SNIFF_LEN
        invariant
            k <= contents@.len(),
            forall|m: int| 0 <= m < k ==> contents@[m] != 0,
        decreases contents@.len() - k,
    {
        if contents[k] == 0 {
            return false;
        }
        k = k + 1;
    }
    true
}

} // verus!
