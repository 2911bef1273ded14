//! Portable vault paths, excluding traversal and Windows path aliases.
use crate::text::{
    before_first, char_is_control, char_is_reserved, char_utf8_len, char_width, chars_of,
    ends_with_chars, is_ascii_alphanumeric, is_ascii_hexdigit, is_control, is_reserved_char,
    last_index_of, push_str, slice_copy, split, split_vec, starts_with_chars, string_of, trim,
    trim_bounds, trim_end_matches, trim_end_matches_vec, trim_start_matches,
    trim_start_matches_vec, trim_vec, utf8_len, utf8_len_at_most, views,
};
use vstd::prelude::*;
use vstd::utf8::{decode_utf8, encode_utf8, valid_utf8};
use vstd::string::StringSliceAdditionalSpecFns;

verus! {

/// `path` lies inside the folder `root`: it is `root`, then a `/`, then more.
pub open spec fn lies_inside(path: Seq<char>, root: Seq<char>) -> bool {
    &&& root.len() < path.len()
    &&& path.subrange(0, root.len() as int) == root
    &&& path[root.len() as int] == '/'
}

/// ASCII case-insensitive match of `c` against the upper-case letter or digit `upper`.
pub open spec fn ci_eq(c: char, upper: char) -> bool {
    c == upper || ('A' <= upper <= 'Z' && (c as u32) == (upper as u32) + 32)
}

pub open spec fn word3(b: Seq<char>, x: char, y: char, z: char) -> bool {
    ci_eq(b[0], x) && ci_eq(b[1], y) && ci_eq(b[2], z)
}

/// Windows device names, compared without ASCII case: CON, PRN, AUX, NUL, COM1-9, LPT1-9.
pub open spec fn is_device_name(b: Seq<char>) -> bool {
    ||| b.len() == 3 && (word3(b, 'C', 'O', 'N') || word3(b, 'P', 'R', 'N') || word3(
        b,
        'A',
        'U',
        'X',
    ) || word3(b, 'N', 'U', 'L'))
    ||| b.len() == 4 && (word3(b, 'C', 'O', 'M') || word3(b, 'L', 'P', 'T')) && '1' <= b[3] <= '9'
}

/// One portable path segment.
pub open spec fn segment_ok(s: Seq<char>) -> bool {
    &&& s.len() > 0
    &&& utf8_len(s) <= 180
    &&& trim(s) == s
    &&& s.last() != '.'
    &&& forall|i: int| 0 <= i < s.len() ==> !is_control(#[trigger] s[i]) && !is_reserved_char(s[i])
    &&& !is_device_name(before_first(s, '.'))
}

/// A vault path: at most 900 bytes of portable segments separated by `/`.
pub open spec fn path_ok(p: Seq<char>) -> bool {
    &&& p.len() > 0
    &&& utf8_len(p) <= 900
    &&& forall|i: int| 0 <= i < split(p, '/').len() ==> segment_ok(#[trigger] split(p, '/')[i])
}

/// A Markdown note path: a vault path ending in `.md` with no hidden segment.
pub open spec fn note_path_ok(p: Seq<char>) -> bool {
    &&& path_ok(p)
    &&& seq!['.', 'm', 'd'].is_suffix_of(p)
    &&& forall|i: int|
        0 <= i < split(p, '/').len() ==> !seq!['.'].is_prefix_of(#[trigger] split(p, '/')[i])
}

/// A plain note ID: 1 to 64 bytes of ASCII letters, digits and `-`.
pub open spec fn id_ok(id: Seq<char>) -> bool {
    &&& id.len() > 0
    &&& utf8_len(id) <= 64
    &&& forall|i: int| 0 <= i < id.len() ==> is_ascii_alphanumeric(#[trigger] id[i]) || id[i] == '-'
}

/// Lower-case hexadecimal digit of a value below 16.
pub open spec fn hex_digit(n: int) -> char {
    if n < 10 {
        ((48 + n) as u8) as char
    } else {
        ((87 + n) as u8) as char
    }
}

/// Two lower-case hexadecimal digits per byte.
pub open spec fn hex_encode(b: Seq<u8>) -> Seq<char> {
    Seq::new(
        2 * b.len(),
        |i: int|
            if i % 2 == 0 {
                hex_digit((b[i / 2] / 16) as int)
            } else {
                hex_digit((b[i / 2] % 16) as int)
            },
    )
}

/// The path handle of a note path: `p-` and the hex of its UTF-8 bytes.
pub open spec fn path_id_of(p: Seq<char>) -> Seq<char> {
    seq!['p', '-'] + hex_encode(encode_utf8(p))
}

pub open spec fn hex_val(c: char) -> int {
    if '0' <= c <= '9' {
        c as int - 48
    } else if 'a' <= c <= 'f' {
        c as int - 87
    } else {
        c as int - 55
    }
}

/// `u8::from_str_radix` on two characters in base 16 (an optional leading `+` is accepted).
pub open spec fn pair_value(a: char, b: char) -> Option<u8> {
    if is_ascii_hexdigit(a) && is_ascii_hexdigit(b) {
        Some((16 * hex_val(a) + hex_val(b)) as u8)
    } else if a == '+' && is_ascii_hexdigit(b) {
        Some(hex_val(b) as u8)
    } else {
        None
    }
}

pub open spec fn hex_pairs_ok(h: Seq<char>) -> bool {
    forall|k: int| 0 <= k < h.len() / 2 ==> (#[trigger] pair_value(h[2 * k], h[2 * k + 1])) is Some
}

pub open spec fn hex_decode(h: Seq<char>) -> Seq<u8> {
    Seq::new(h.len() / 2, |k: int| pair_value(h[2 * k], h[2 * k + 1])->0)
}

/// The note path that a path handle names, if it is a well-formed handle of a note path.
pub open spec fn id_path_of(id: Seq<char>) -> Option<Seq<char>> {
    if !seq!['p', '-'].is_prefix_of(id) {
        None
    } else {
        let h = id.skip(2);
        if utf8_len(h) > 1800 || h.len() % 2 != 0 || !hex_pairs_ok(h) {
            None
        } else {
            let bytes = hex_decode(h);
            if valid_utf8(bytes) && note_path_ok(decode_utf8(bytes)) {
                Some(decode_utf8(bytes))
            } else {
                None
            }
        }
    }
}

pub open spec fn note_id_ok(id: Seq<char>) -> bool {
    id_ok(id) || id_path_of(id) is Some
}

/// The folder part of a path: everything before the last `/`, or empty.
pub open spec fn parent_of(p: Seq<char>) -> Seq<char> {
    if last_index_of(p, '/') >= 0 {
        p.take(last_index_of(p, '/'))
    } else {
        Seq::<char>::empty()
    }
}

pub open spec fn sanitize_char(c: char) -> char {
    if is_control(c) || is_reserved_char(c) {
        '_'
    } else {
        c
    }
}

/// Length of the longest prefix of `s` whose UTF-8 encoding fits in `limit` bytes.
pub open spec fn fit_len(s: Seq<char>, limit: int) -> nat
    decreases s.len(),
{
    if s.len() == 0 || char_utf8_len(s[0]) > limit {
        0
    } else {
        1 + fit_len(s.drop_first(), limit - char_utf8_len(s[0]))
    }
}

/// The stem of the file name a note title gets.
pub open spec fn filename_stem(title: Seq<char>) -> Seq<char> {
    let mapped = title.map_values(|c: char| sanitize_char(c));
    let kept = mapped.take(fit_len(mapped, 140) as int);
    let clean = trim_start_matches(trim_end_matches(trim(kept), '.'), '.');
    if segment_ok(clean) {
        clean
    } else {
        "Untitled note"@
    }
}

fn char_ci_eq(c: char, upper: char) -> (r: bool)
    requires
        ('A' <= upper <= 'Z') || ('0' <= upper <= '9'),
    ensures
        r == ci_eq(c, upper),
{
    c == upper || ('A' <= upper && upper <= 'Z' && (c as u32) == (upper as u32) + 32)
}

fn is_word3(b: &[char], x: char, y: char, z: char) -> (r: bool)
    requires
        b.len() >= 3,
        'A' <= x <= 'Z',
        'A' <= y <= 'Z',
        'A' <= z <= 'Z',
    ensures
        r == word3(b@, x, y, z),
{
    char_ci_eq(b[0], x) && char_ci_eq(b[1], y) && char_ci_eq(b[2], z)
}

fn device_name(b: &[char]) -> (r: bool)
    ensures
        r == is_device_name(b@),
{
    if b.len() == 3 {
        is_word3(b, 'C', 'O', 'N') || is_word3(b, 'P', 'R', 'N') || is_word3(b, 'A', 'U', 'X')
            || is_word3(b, 'N', 'U', 'L')
    } else if b.len() == 4 {
        (is_word3(b, 'C', 'O', 'M') || is_word3(b, 'L', 'P', 'T')) && '1' <= b[3] && b[3] <= '9'
    } else {
        false
    }
}

fn before_first_vec(v: &[char], sep: char) -> (r: Vec<char>)
    ensures
        r@ == before_first(v@, sep),
{
    let mut i: usize = 0;
    assert(v@.skip(0) =~= v@);
    assert(v@.take(0) =~= Seq::<char>::empty());
    while i < v.len() && v[i] != sep
        invariant
            i <= v.len(),
            before_first(v@, sep) == v@.take(i as int) + before_first(v@.skip(i as int), sep),
        decreases v.len() - i,
    {
        assert(v@.skip(i as int).drop_first() =~= v@.skip(i + 1));
        assert(v@.take(i + 1) =~= v@.take(i as int) + seq![v@[i as int]]);
        i = i + 1;
    }
    proof {
        if i == v.len() {
            assert(v@.take(i as int) =~= v@);
        }
    }
    slice_copy(v, 0, i)
}

/// Whether `s` is a portable path segment.
pub fn segment_ok_chars(s: &[char]) -> (r: bool)
    ensures
        r == segment_ok(s@),
{
    if s.len() == 0 || !utf8_len_at_most(s, 180) {
        return false;
    }
    let (a, b) = trim_bounds(s);
    if a != 0 || b != s.len() {
        proof {
            if trim(s@) == s@ {
                assert(trim(s@).len() == s@.len());
            }
        }
        return false;
    }
    assert(s@.subrange(0, s@.len() as int) =~= s@);
    if s[s.len() - 1] == '.' {
        return false;
    }
    let mut i: usize = 0;
    while i < s.len()
        invariant
            i <= s.len(),
            forall|j: int| 0 <= j < i ==> !is_control(#[trigger] s@[j]) && !is_reserved_char(s@[j]),
        decreases s.len() - i,
    {
        if char_is_control(s[i]) || char_is_reserved(s[i]) {
            return false;
        }
        i = i + 1;
    }
    let base = before_first_vec(s, '.');
    !device_name(base.as_slice())
}

/// Whether `s` is one portable path segment.
pub fn valid_segment(s: &str) -> (r: bool)
    ensures
        r == segment_ok(s@),
{
    let v = chars_of(s);
    segment_ok_chars(v.as_slice())
}

/// Whether every piece of `parts` is a portable segment.
fn all_segments_ok(parts: &Vec<Vec<char>>) -> (r: bool)
    ensures
        r == forall|i: int| 0 <= i < parts@.len() ==> segment_ok(#[trigger] views(parts@)[i]),
{
    let mut i: usize = 0;
    while i < parts.len()
        invariant
            i <= parts.len(),
            forall|j: int| 0 <= j < i ==> segment_ok(#[trigger] views(parts@)[j]),
        decreases parts.len() - i,
    {
        if !segment_ok_chars(parts[i].as_slice()) {
            assert(views(parts@)[i as int] == parts@[i as int]@);
            return false;
        }
        assert(views(parts@)[i as int] == parts@[i as int]@);
        i = i + 1;
    }
    true
}

pub fn path_ok_chars(p: &[char]) -> (r: bool)
    ensures
        r == path_ok(p@),
{
    if p.len() == 0 || !utf8_len_at_most(p, 900) {
        return false;
    }
    let parts = split_vec(p, '/');
    all_segments_ok(&parts)
}

/// Whether `path` is a vault path.
pub fn valid_path(path: &str) -> (r: bool)
    ensures
        r == path_ok(path@),
{
    let v = chars_of(path);
    path_ok_chars(v.as_slice())
}

pub fn note_path_chars(p: &[char]) -> (r: bool)
    ensures
        r == note_path_ok(p@),
{
    if !path_ok_chars(p) {
        return false;
    }
    let md = ['.', 'm', 'd'];
    assert(md@ == seq!['.', 'm', 'd']);
    if !ends_with_chars(p, md.as_slice()) {
        return false;
    }
    let parts = split_vec(p, '/');
    let mut i: usize = 0;
    while i < parts.len()
        invariant
            i <= parts.len(),
            views(parts@) == split(p@, '/'),
            forall|j: int| 0 <= j < i ==> !seq!['.'].is_prefix_of(#[trigger] split(p@, '/')[j]),
        decreases parts.len() - i,
    {
        assert(views(parts@)[i as int] == parts@[i as int]@);
        if parts[i].len() > 0 && parts[i][0] == '.' {
            assert(seq!['.'].is_prefix_of(split(p@, '/')[i as int]));
            return false;
        }
        assert(!seq!['.'].is_prefix_of(split(p@, '/')[i as int])) by {
            let x = split(p@, '/')[i as int];
            if x.len() >= 1 {
                assert(x.subrange(0, 1)[0] == x[0]);
            }
        }
        i = i + 1;
    }
    true
}

/// Whether `path` names a Markdown note in the vault.
pub fn note_path(path: &str) -> (r: bool)
    ensures
        r == note_path_ok(path@),
{
    let v = chars_of(path);
    note_path_chars(v.as_slice())
}

pub fn id_ok_chars(id: &[char]) -> (r: bool)
    ensures
        r == id_ok(id@),
{
    if id.len() == 0 || !utf8_len_at_most(id, 64) {
        return false;
    }
    let mut i: usize = 0;
    while i < id.len()
        invariant
            i <= id.len(),
            forall|j: int| 0 <= j < i ==> is_ascii_alphanumeric(#[trigger] id@[j]) || id@[j] == '-',
        decreases id.len() - i,
    {
        let c = id[i];
        if !(('0' <= c && c <= '9') || ('a' <= c && c <= 'z') || ('A' <= c && c <= 'Z') || c
            == '-') {
            return false;
        }
        i = i + 1;
    }
    true
}

/// Whether `id` is a plain note ID.
pub fn valid_id(id: &str) -> (r: bool)
    ensures
        r == id_ok(id@),
{
    let v = chars_of(id);
    id_ok_chars(v.as_slice())
}

pub fn hex_char_of(n: u8) -> (c: char)
    requires
        n < 16,
    ensures
        c == hex_digit(n as int),
{
    if n < 10 {
        (48 + n) as u8 as char
    } else {
        (87 + n) as u8 as char
    }
}

/// The path handle of `path`: `p-` followed by the lower-case hex of its UTF-8 bytes.
pub fn path_id(path: &str) -> (r: String)
    ensures
        r@ == path_id_of(path@),
{
    let bytes = path.as_bytes();
    let mut out = String::new();
    out.push('p');
    out.push('-');
    let mut i: usize = 0;
    while i < bytes.len()
        invariant
            i <= bytes.len(),
            bytes@ == encode_utf8(path@),
            out@ == seq!['p', '-'] + hex_encode(bytes@.take(i as int)),
        decreases bytes.len() - i,
    {
        let b = bytes[i];
        let ghost before = out@;
        out.push(hex_char_of(b / 16));
        out.push(hex_char_of(b % 16));
        i = i + 1;
        assert(out@ =~= seq!['p', '-'] + hex_encode(bytes@.take(i as int)));
    }
    assert(bytes@.take(bytes.len() as int) =~= bytes@);
    out
}

fn is_hex(c: char) -> (r: bool)
    ensures
        r == is_ascii_hexdigit(c),
{
    ('0' <= c && c <= '9') || ('a' <= c && c <= 'f') || ('A' <= c && c <= 'F')
}

fn hex_value(c: char) -> (n: u8)
    requires
        is_ascii_hexdigit(c),
    ensures
        n == hex_val(c),
        n < 16,
{
    let u = c as u32;
    if '0' <= c && c <= '9' {
        (u - 48) as u8
    } else if 'a' <= c && c <= 'f' {
        (u - 87) as u8
    } else {
        (u - 55) as u8
    }
}

fn pair(a: char, b: char) -> (r: Option<u8>)
    ensures
        r == pair_value(a, b),
{
    if is_hex(a) && is_hex(b) {
        let x = hex_value(a);
        let y = hex_value(b);
        Some(16 * x + y)
    } else if a == '+' && is_hex(b) {
        Some(hex_value(b))
    } else {
        None
    }
}

/// `String::from_utf8`: the text that `bytes` encode, when they are valid UTF-8.
#[verifier::external_body]
fn string_from_utf8(bytes: Vec<u8>) -> (r: Option<String>)
    ensures
        r is Some <==> valid_utf8(bytes@),
        r matches Some(s) ==> s@ == decode_utf8(bytes@),
{
    String::from_utf8(bytes).ok()
}

/// The note path named by the path handle `id`, or `None` when `id` is not such a handle.
pub fn id_path(id: &str) -> (r: Option<String>)
    ensures
        r matches Some(s) ==> id_path_of(id@) == Some(s@),
        r is None ==> id_path_of(id@) is None,
{
    let v = chars_of(id);
    let prefix = ['p', '-'];
    assert(prefix@ == seq!['p', '-']);
    if !starts_with_chars(v.as_slice(), prefix.as_slice()) {
        return None;
    }
    let h = slice_copy(v.as_slice(), 2, v.len());
    assert(h@ == id@.skip(2));
    if !utf8_len_at_most(h.as_slice(), 1800) || h.len() % 2 != 0 {
        return None;
    }
    let mut bytes: Vec<u8> = Vec::new();
    let mut k: usize = 0;
    while k < h.len() / 2
        invariant
            k <= h.len() / 2,
            h.len() % 2 == 0,
            h@ == id@.skip(2),
            seq!['p', '-'].is_prefix_of(id@),
            utf8_len(h@) <= 1800,
            bytes@.len() == k,
            forall|j: int| 0 <= j < k ==> (#[trigger] pair_value(h@[2 * j], h@[2 * j + 1])) is Some,
            forall|j: int| 0 <= j < k ==> bytes@[j] == pair_value(h@[2 * j], h@[2 * j + 1])->0,
        decreases h.len() / 2 - k,
    {
        match pair(h[2 * k], h[2 * k + 1]) {
            Some(b) => bytes.push(b),
            None => {
                assert(pair_value(h@[2 * k as int], h@[2 * k as int + 1]) is None);
                assert(!hex_pairs_ok(h@));
                return None;
            },
        }
        k = k + 1;
    }
    assert(bytes@ =~= hex_decode(h@));
    match string_from_utf8(bytes) {
        Some(s) => {
            if note_path(s.as_str()) {
                Some(s)
            } else {
                None
            }
        },
        None => None,
    }
}

/// Whether `id` is a plain note ID or the path handle of a note path.
pub fn valid_note_id(id: &str) -> (r: bool)
    ensures
        r == note_id_ok(id@),
{
    valid_id(id) || id_path(id).is_some()
}

/// The folder of `path`: everything before its last `/`, or the empty string.
pub fn folder(path: &str) -> (r: String)
    ensures
        r@ == parent_of(path@),
{
    let v = chars_of(path);
    let mut j: usize = v.len();
    assert(v@.take(v.len() as int) =~= v@);
    while j > 0 && v[j - 1] != '/'
        invariant
            j <= v.len(),
            last_index_of(v@, '/') == last_index_of(v@.take(j as int), '/'),
        decreases j,
    {
        assert(v@.take(j as int).drop_last() =~= v@.take(j - 1));
        j = j - 1;
    }
    if j == 0 {
        String::new()
    } else {
        assert(v@.take(j as int).last() == '/');
        let p = slice_copy(v.as_slice(), 0, j - 1);
        string_of(p.as_slice())
    }
}

/// The file name a note with `title` gets: the sanitized title (or `Untitled note`) and `.md`.
pub fn filename(title: &str) -> (r: String)
    ensures
        r@ == filename_stem(title@) + ".md"@,
{
    let t = chars_of(title);
    let ghost mapped = t@.map_values(|c: char| sanitize_char(c));
    let mut kept: Vec<char> = Vec::new();
    let mut total: usize = 0;
    let mut i: usize = 0;
    let mut full = false;
    assert(mapped.skip(0) =~= mapped);
    while i < t.len() && !full
        invariant
            i <= t.len(),
            full ==> fit_len(mapped.skip(i as int), 140 - total) == 0,
            mapped.len() == t@.len(),
            mapped == t@.map_values(|c: char| sanitize_char(c)),
            total <= 140,
            kept@ == mapped.take(i as int),
            fit_len(mapped, 140) == i + fit_len(mapped.skip(i as int), 140 - total),
        decreases t.len() - i + (if full { 0int } else { 1int }),
    {
        let c = t[i];
        let m = if char_is_control(c) || char_is_reserved(c) {
            '_'
        } else {
            c
        };
        assert(m == mapped[i as int]);
        let w = char_width(m);
        assert(mapped.skip(i as int)[0] == m);
        if w > 140 - total {
            full = true;
        } else {
            assert(mapped.skip(i as int).drop_first() =~= mapped.skip(i + 1));
            kept.push(m);
            total = total + w;
            i = i + 1;
            assert(kept@ =~= mapped.take(i as int));
        }
    }
    proof {
        if i == t.len() {
            assert(mapped.skip(i as int).len() == 0);
        }
    }
    assert(fit_len(mapped, 140) == i);
    let trimmed = trim_vec(kept.as_slice());
    let no_end = trim_end_matches_vec(trimmed.as_slice(), '.');
    let clean = trim_start_matches_vec(no_end.as_slice(), '.');
    let mut out = if segment_ok_chars(clean.as_slice()) {
        string_of(clean.as_slice())
    } else {
        "Untitled note".to_owned()
    };
    push_str(&mut out, ".md");
    out
}

proof fn lemma_hex_digit(n: int)
    requires
        0 <= n < 16,
    ensures
        is_ascii_hexdigit(hex_digit(n)),
        hex_val(hex_digit(n)) == n,
        hex_digit(n) != '+',
{
    if n < 10 {
        assert((48 + n) as u8 == 48 + n);
        assert(((48 + n) as u8) as char as int == 48 + n);
    } else {
        assert((87 + n) as u8 == 87 + n);
        assert(((87 + n) as u8) as char as int == 87 + n);
    }
}

proof fn lemma_scalar_width(c: char)
    ensures
        vstd::utf8::encode_scalar(c as u32).len() == char_utf8_len(c),
{
    vstd::utf8::char_is_scalar(c);
}

proof fn lemma_encode_len(p: Seq<char>)
    ensures
        vstd::utf8::encode_utf8(p).len() == utf8_len(p),
    decreases p.len(),
{
    if p.len() > 0 {
        lemma_encode_len(p.drop_first());
        lemma_scalar_width(p[0]);
        assert(p =~= seq![p[0]] + p.drop_first());
        crate::text::lemma_utf8_len_add(seq![p[0]], p.drop_first());
        assert(seq![p[0]].drop_last() =~= Seq::<char>::empty());
        assert(utf8_len(Seq::<char>::empty()) == 0);
        assert(utf8_len(seq![p[0]]) == char_utf8_len(p[0]));
        assert(vstd::utf8::encode_utf8(p) == vstd::utf8::encode_scalar(p[0] as u32) + vstd::utf8::encode_utf8(p.drop_first()));
    }
}

proof fn lemma_ascii_len(s: Seq<char>)
    requires
        forall|i: int| 0 <= i < s.len() ==> (#[trigger] s[i] as u32) < 0x80,
    ensures
        utf8_len(s) == s.len(),
    decreases s.len(),
{
    if s.len() > 0 {
        lemma_ascii_len(s.drop_last());
    }
}

/// A path handle names the path it was made from: every note path comes back from its
/// handle, so a note stays reachable by its handle alone.
pub proof fn lemma_path_handle_roundtrip(p: Seq<char>)
    requires
        note_path_ok(p),
    ensures
        id_path_of(path_id_of(p)) == Some(p),
        note_id_ok(path_id_of(p)),
{
    let bytes = encode_utf8(p);
    let h = hex_encode(bytes);
    let id = path_id_of(p);
    assert(id.skip(2) =~= h);
    assert(seq!['p', '-'].is_prefix_of(id));
    lemma_encode_len(p);
    assert forall|i: int| 0 <= i < h.len() implies (#[trigger] h[i] as u32) < 0x80 by {
        if i % 2 == 0 {
            lemma_hex_digit((bytes[i / 2] / 16) as int);
        } else {
            lemma_hex_digit((bytes[i / 2] % 16) as int);
        }
    }
    lemma_ascii_len(h);
    assert forall|k: int| 0 <= k < h.len() / 2 implies (#[trigger] pair_value(h[2 * k], h[2 * k + 1])) is Some
        && pair_value(h[2 * k], h[2 * k + 1])->0 == bytes[k] by {
        let b = bytes[k];
        assert((2 * k) % 2 == 0 && (2 * k) / 2 == k);
        assert((2 * k + 1) % 2 == 1 && (2 * k + 1) / 2 == k);
        lemma_hex_digit((b / 16) as int);
        lemma_hex_digit((b % 16) as int);
        assert(16 * (b / 16) + b % 16 == b);
    }
    assert(hex_decode(h) =~= bytes);
    vstd::utf8::encode_utf8_valid_utf8(p);
    vstd::utf8::encode_utf8_decode_utf8(p);
}

/// ASCII lower case of one character.
pub open spec fn ascii_lower(c: char) -> char {
    if 'A' <= c <= 'Z' {
        ((c as u32) + 32) as char
    } else {
        c
    }
}

/// Two characters with the same scalar value are the same character.
proof fn lemma_char_eq(x: char, y: char)
    requires
        x as u32 == y as u32,
    ensures
        x == y,
{
    vstd::utf8::char_u32_cast(x, x as u32);
    vstd::utf8::char_u32_cast(y, y as u32);
}

/// The hex digit that a hex character's value prints as is that character in lower case.
proof fn lemma_hex_digit_val(c: char)
    requires
        is_ascii_hexdigit(c),
    ensures
        0 <= hex_val(c) < 16,
        hex_digit(hex_val(c)) == ascii_lower(c),
{
    let n = hex_val(c);
    if '0' <= c <= '9' {
        assert((48 + n) as u8 == 48 + n);
        lemma_char_eq(((48 + n) as u8) as char, c);
    } else if 'a' <= c <= 'f' {
        assert((87 + n) as u8 == 87 + n);
        lemma_char_eq(((87 + n) as u8) as char, c);
    } else {
        assert((87 + n) as u8 == 87 + n);
        assert((((c as u32) + 32) as char) as u32 == (c as u32) + 32);
        lemma_char_eq(((87 + n) as u8) as char, ((c as u32) + 32) as char);
    }
}

/// A byte below 0x80 in the UTF-8 encoding of a string is one of its characters.
proof fn lemma_ascii_byte_is_char(p: Seq<char>, k: int)
    requires
        0 <= k < encode_utf8(p).len(),
        encode_utf8(p)[k] < 0x80,
    ensures
        exists|i: int| 0 <= i < p.len() && (#[trigger] p[i]) as u32 == encode_utf8(p)[k] as u32,
    decreases p.len(),
{
    let u = p[0] as u32;
    let e0 = vstd::utf8::encode_scalar(u);
    assert(encode_utf8(p) == e0 + encode_utf8(p.drop_first()));
    if k < e0.len() {
        if vstd::utf8::has_width_1_encoding(u) {
            assert(((u & 0x7F) as u8) as u32 == u) by (bit_vector)
                requires
                    u <= 0x7F,
            ;
            assert(encode_utf8(p)[k] == e0[0]);
        } else {
            let b = encode_utf8(p)[k];
            assert(b == e0[k]);
            let x = ((u >> 6) & 0x1F) as u8;
            let y = ((u >> 12) & 0x0F) as u8;
            let z = ((u >> 18) & 0x7) as u8;
            let w0 = (u & 0x3F) as u8;
            let w1 = ((u >> 6) & 0x3F) as u8;
            let w2 = ((u >> 12) & 0x3F) as u8;
            assert((0xC0u8 | x) >= 0x80 && (0xE0u8 | y) >= 0x80 && (0xF0u8 | z) >= 0x80
                && (0x80u8 | w0) >= 0x80 && (0x80u8 | w1) >= 0x80 && (0x80u8 | w2) >= 0x80)
                by (bit_vector);
        }
    } else {
        lemma_ascii_byte_is_char(p.drop_first(), k - e0.len());
        let i = choose|i: int|
            0 <= i < p.drop_first().len() && (#[trigger] p.drop_first()[i]) as u32
                == encode_utf8(p.drop_first())[k - e0.len()] as u32;
        assert(p[i + 1] == p.drop_first()[i]);
    }
}

/// Every character of a string whose `sep`-separated pieces hold no control character is
/// `sep` or not a control character.
proof fn lemma_pieces_no_control(s: Seq<char>, sep: char)
    requires
        forall|i: int, j: int|
            0 <= i < split(s, sep).len() && 0 <= j < split(s, sep)[i].len() ==> !is_control(
                #[trigger] split(s, sep)[i][j],
            ),
    ensures
        forall|j: int| 0 <= j < s.len() ==> s[j] == sep || !is_control(#[trigger] s[j]),
    decreases s.len(),
{
    if s.len() > 0 {
        let t = s.drop_last();
        let r = split(t, sep);
        let q = split(s, sep);
        crate::text::lemma_split_nonempty(t, sep);
        assert forall|i: int, j: int| 0 <= i < r.len() && 0 <= j < r[i].len() implies !is_control(
            #[trigger] r[i][j],
        ) by {
            if s.last() == sep {
                assert(q[i] == r[i]);
                assert(q[i][j] == r[i][j]);
            } else if i < r.len() - 1 {
                assert(q[i] == r[i]);
                assert(q[i][j] == r[i][j]);
            } else {
                assert(q[i] == r[i].push(s.last()));
                assert(q[i][j] == r[i][j]);
            }
        }
        lemma_pieces_no_control(t, sep);
        if s.last() != sep {
            let last = r.len() - 1;
            assert(q[last] == r[last].push(s.last()));
            assert(q[last][r[last].len() as int] == s.last());
        }
        assert forall|j: int| 0 <= j < s.len() implies s[j] == sep || !is_control(#[trigger] s[j]) by {
            if j < t.len() {
                assert(s[j] == t[j]);
            }
        }
    }
}

/// A path handle read back and made again gives the handle in lower case: the path it names
/// is a note path, and its handle is `id` with the hex digits lower-cased.
pub proof fn lemma_handle_reencodes(id: Seq<char>)
    requires
        id_path_of(id) is Some,
    ensures
        note_path_ok(id_path_of(id)->0),
        path_id_of(id_path_of(id)->0) == id.map_values(|c: char| ascii_lower(c)),
{
    let h = id.skip(2);
    let bytes = hex_decode(h);
    let p = id_path_of(id)->0;
    vstd::utf8::decode_utf8_encode_utf8(bytes);
    assert(encode_utf8(p) == bytes);
    let lowered = id.map_values(|c: char| ascii_lower(c));
    let again = path_id_of(p);
    assert(again.len() == lowered.len());
    assert forall|i: int| 0 <= i < again.len() implies again[i] == lowered[i] by {
        if i < 2 {
            assert(id[i] == seq!['p', '-'][i]);
        } else {
            let j = i - 2;
            let k = j / 2;
            assert(0 <= k < h.len() / 2);
            let a = h[2 * k];
            let b = h[2 * k + 1];
            assert(pair_value(a, b) is Some);
            assert(a == id[2 + 2 * k]);
            if a == '+' {
                // Such a pair reads as a byte below 16: a control character in the path.
                lemma_hex_digit_val(b);
                assert(bytes[k] == hex_val(b) as u8);
                assert(bytes[k] < 16);
                lemma_ascii_byte_is_char(p, k);
                let w = choose|w: int| 0 <= w < p.len() && (#[trigger] p[w]) as u32 == encode_utf8(p)[k] as u32;
                assert(is_control(p[w]));
                lemma_pieces_no_control(p, '/');
                assert(p[w] != '/');
            }
            assert(is_ascii_hexdigit(a) && is_ascii_hexdigit(b));
            lemma_hex_digit_val(a);
            lemma_hex_digit_val(b);
            let va = hex_val(a);
            let vb = hex_val(b);
            assert(bytes[k] == (16 * va + vb) as u8);
            assert((16 * va + vb) as u8 == 16 * va + vb);
            assert((16 * va + vb) / 16 == va && (16 * va + vb) % 16 == vb) by (nonlinear_arith)
                requires
                    0 <= va < 16,
                    0 <= vb < 16,
            ;
            if j % 2 == 0 {
                assert(j == 2 * k);
                assert(again[i] == hex_digit((bytes[k] / 16) as int));
                assert(h[j] == id[i]);
            } else {
                assert(j == 2 * k + 1);
                assert(again[i] == hex_digit((bytes[k] % 16) as int));
                assert(h[j] == id[i]);
            }
        }
    }
    assert(again =~= lowered);
}

/// Leading copies of `c`: how far they reach, and that they stop at another character.
proof fn lemma_char_prefix(s: Seq<char>, c: char)
    ensures
        crate::text::char_prefix_len(s, c) <= s.len(),
        crate::text::char_prefix_len(s, c) < s.len() ==> s[crate::text::char_prefix_len(s, c) as int]
            != c,
    decreases s.len(),
{
    if s.len() > 0 && s[0] == c {
        lemma_char_prefix(s.drop_first(), c);
        let n = crate::text::char_prefix_len(s.drop_first(), c);
        if n < s.drop_first().len() {
            assert(s[n as int + 1] == s.drop_first()[n as int]);
        }
    }
}

/// The UTF-8 length of one character.
proof fn lemma_utf8_single(x: char)
    ensures
        utf8_len(seq![x]) == char_utf8_len(x),
{
    assert(seq![x].drop_last() =~= Seq::<char>::empty());
    assert(seq![x].last() == x);
    assert(utf8_len(Seq::<char>::empty()) == 0);
    assert(utf8_len(seq![x]) == utf8_len(seq![x].drop_last()) + char_utf8_len(seq![x].last()));
}

/// A piece of a string is no longer in UTF-8 than the string.
proof fn lemma_utf8_piece(x: Seq<char>, i: int)
    requires
        0 <= i <= x.len(),
    ensures
        utf8_len(x.take(i)) <= utf8_len(x),
        utf8_len(x.skip(i)) <= utf8_len(x),
{
    assert(x.take(i) + x.skip(i) =~= x);
    crate::text::lemma_utf8_len_add(x.take(i), x.skip(i));
}

/// The longest prefix that fits in `limit` bytes does fit, and a string that fits is whole.
proof fn lemma_fit_len(s: Seq<char>, limit: int)
    requires
        limit >= 0,
    ensures
        fit_len(s, limit) <= s.len(),
        utf8_len(s.take(fit_len(s, limit) as int)) <= limit,
        utf8_len(s) <= limit ==> fit_len(s, limit) == s.len(),
    decreases s.len(),
{
    if s.len() > 0 {
        let r = s.drop_first();
        assert(seq![s[0]] + r =~= s);
        crate::text::lemma_utf8_len_add(seq![s[0]], r);
        lemma_utf8_single(s[0]);
        if char_utf8_len(s[0]) > limit {
            assert(s.take(0) =~= Seq::<char>::empty());
        } else {
            let w = char_utf8_len(s[0]) as int;
            lemma_fit_len(r, limit - w);
            let f = fit_len(r, limit - w) as int;
            assert(s.take(1 + f) =~= seq![s[0]] + r.take(f));
            crate::text::lemma_utf8_len_add(seq![s[0]], r.take(f));
        }
    } else {
        assert(s.take(0) =~= s);
    }
}

/// A trimmed non-empty string has no white space at either end.
proof fn lemma_trimmed_ends(s: Seq<char>)
    requires
        trim(s) == s,
        s.len() > 0,
    ensures
        !crate::text::is_white_space(s[0]),
        !crate::text::is_white_space(s.last()),
{
    crate::linebreaks::lemma_ws_prefix(s);
    let u = crate::text::trim_start(s);
    crate::linebreaks::lemma_ws_suffix(u);
    if crate::text::is_white_space(s[0]) {
        assert(crate::text::ws_prefix_len(s) >= 1);
        assert(trim(s).len() < s.len());
    }
    assert(crate::text::ws_prefix_len(s) == 0);
    assert(u =~= s);
    if crate::text::is_white_space(s.last()) {
        assert(crate::text::ws_suffix_len(s) >= 1);
        assert(trim(s).len() < s.len());
    }
}

/// Text without `sep` is its own piece before the first `sep`.
proof fn lemma_before_first_whole(a: Seq<char>, sep: char)
    requires
        !a.contains(sep),
    ensures
        before_first(a, sep) == a,
    decreases a.len(),
{
    if a.len() > 0 {
        assert(a[0] != sep);
        assert(!a.drop_first().contains(sep)) by {
            if a.drop_first().contains(sep) {
                let k = choose|k: int| 0 <= k < a.drop_first().len() && a.drop_first()[k] == sep;
                assert(a[k + 1] == sep);
            }
        }
        lemma_before_first_whole(a.drop_first(), sep);
        assert(seq![a[0]] + a.drop_first() =~= a);
    } else {
        assert(before_first(a, sep) =~= a);
    }
}

/// The piece before the first `sep` of `a + b`, where `a` holds no `sep`.
proof fn lemma_before_first_concat(a: Seq<char>, b: Seq<char>, sep: char)
    requires
        !a.contains(sep),
    ensures
        before_first(a + b, sep) == a + before_first(b, sep),
    decreases a.len(),
{
    if a.len() == 0 {
        assert(a + b =~= b);
        assert(a + before_first(b, sep) =~= before_first(b, sep));
    } else {
        assert(a[0] != sep);
        assert(!a.drop_first().contains(sep)) by {
            if a.drop_first().contains(sep) {
                let k = choose|k: int| 0 <= k < a.drop_first().len() && a.drop_first()[k] == sep;
                assert(a[k + 1] == sep);
            }
        }
        lemma_before_first_concat(a.drop_first(), b, sep);
        assert((a + b).drop_first() =~= a.drop_first() + b);
        assert((a + b)[0] == a[0]);
        assert(seq![a[0]] + (a.drop_first() + before_first(b, sep)) =~= a + before_first(b, sep));
    }
}

/// The piece before the first `sep` of `a + b`, where `a` holds a `sep`.
proof fn lemma_before_first_inside(a: Seq<char>, b: Seq<char>, sep: char)
    requires
        a.contains(sep),
    ensures
        before_first(a + b, sep) == before_first(a, sep),
    decreases a.len(),
{
    assert((a + b)[0] == a[0]);
    if a[0] != sep {
        assert(a.drop_first().contains(sep)) by {
            let k = choose|k: int| 0 <= k < a.len() && a[k] == sep;
            assert(k > 0);
            assert(a.drop_first()[k - 1] == sep);
        }
        lemma_before_first_inside(a.drop_first(), b, sep);
        assert((a + b).drop_first() =~= a.drop_first() + b);
    }
}

/// The stem `filename` gives is one portable segment of at most 140 bytes that does not start
/// with `.`.
proof fn lemma_stem_shape(title: Seq<char>)
    ensures
        segment_ok(filename_stem(title)),
        utf8_len(filename_stem(title)) <= 140,
        filename_stem(title)[0] != '.',
{
    let mapped = title.map_values(|c: char| sanitize_char(c));
    let n = fit_len(mapped, 140) as int;
    lemma_fit_len(mapped, 140);
    let kept = mapped.take(n);
    let t = trim(kept);
    let u = crate::text::trim_start(kept);
    crate::linebreaks::lemma_ws_prefix(kept);
    lemma_utf8_piece(kept, crate::text::ws_prefix_len(kept) as int);
    crate::linebreaks::lemma_ws_suffix(u);
    lemma_utf8_piece(u, u.len() - crate::text::ws_suffix_len(u));
    let y = trim_end_matches(t, '.');
    let m = crate::text::char_suffix_len(t, '.');
    lemma_char_suffix(t, '.');
    lemma_utf8_piece(t, t.len() - m);
    let clean = trim_start_matches(y, '.');
    lemma_char_prefix(y, '.');
    lemma_utf8_piece(y, crate::text::char_prefix_len(y, '.') as int);
    if !segment_ok(clean) {
        lemma_untitled_shape();
    }
}

/// Trailing copies of `c` reach no further than the string.
proof fn lemma_char_suffix(s: Seq<char>, c: char)
    ensures
        crate::text::char_suffix_len(s, c) <= s.len(),
    decreases s.len(),
{
    if s.len() > 0 && s.last() == c {
        lemma_char_suffix(s.drop_last(), c);
    }
}

/// `Untitled note` is one portable segment of 13 bytes.
proof fn lemma_untitled_shape()
    ensures
        segment_ok("Untitled note"@),
        utf8_len("Untitled note"@) == 13,
        "Untitled note"@[0] == 'U',
{
    reveal_strlit("Untitled note");
    let u = "Untitled note"@;
    assert forall|i: int| 0 <= i < u.len() implies (#[trigger] u[i] as u32) < 0x80 by {}
    lemma_ascii_len(u);
    assert(!crate::text::is_white_space(u[0]));
    assert(crate::text::ws_prefix_len(u) == 0);
    assert(u.skip(0) =~= u);
    assert(!crate::text::is_white_space(u.last()));
    assert(crate::text::ws_suffix_len(u) == 0);
    assert(u.take(u.len() as int) =~= u);
    assert(!u.contains('.')) by {
        if u.contains('.') {
            let k = choose|k: int| 0 <= k < u.len() && u[k] == '.';
        }
    }
    lemma_before_first_whole(u, '.');
}

/// Every file name that `filename` gives is a note path of one segment and at most 143 bytes,
/// and naming a note after the stem of that file name gives the same file name again.
pub proof fn lemma_filename_shape(title: Seq<char>)
    ensures
        ({
            let stem = filename_stem(title);
            let f = stem + ".md"@;
            &&& note_path_ok(f)
            &&& forall|i: int| 0 <= i < f.len() ==> f[i] != '/'
            &&& utf8_len(f) <= 143
            &&& filename_stem(stem) == stem
        }),
{
    reveal_strlit(".md");
    let stem = filename_stem(title);
    let f = stem + ".md"@;
    lemma_stem_shape(title);
    lemma_trimmed_ends(stem);
    // One segment, no '/'.
    assert forall|i: int| 0 <= i < f.len() implies f[i] != '/' by {
        if i < stem.len() {
            assert(!is_reserved_char(stem[i]));
        }
    }
    crate::linebreaks::lemma_split_without_sep(f, '/');
    // Its length.
    crate::text::lemma_utf8_len_add(stem, ".md"@);
    assert forall|i: int| 0 <= i < 3 implies (#[trigger] ".md"@[i] as u32) < 0x80 by {}
    lemma_ascii_len(".md"@);
    // A portable segment.
    assert(f[0] == stem[0]);
    assert(f.last() == 'd');
    assert(crate::text::ws_prefix_len(f) == 0);
    assert(f.skip(0) =~= f);
    assert(crate::text::ws_suffix_len(f) == 0);
    assert(f.take(f.len() as int) =~= f);
    assert forall|i: int| 0 <= i < f.len() implies !is_control(#[trigger] f[i]) && !is_reserved_char(f[i]) by {
        if i < stem.len() {
            assert(f[i] == stem[i]);
        }
    }
    if stem.contains('.') {
        lemma_before_first_inside(stem, ".md"@, '.');
    } else {
        lemma_before_first_concat(stem, ".md"@, '.');
        lemma_before_first_whole(stem, '.');
        assert(".md"@[0] == '.');
        assert(before_first(".md"@, '.') =~= Seq::<char>::empty());
        assert(stem + Seq::<char>::empty() =~= stem);
    }
    assert(segment_ok(f));
    // A note path with no hidden segment.
    assert(seq!['.', 'm', 'd'] =~= f.subrange(f.len() - 3, f.len() as int));
    assert(split(f, '/')[0] == f);
    assert(!seq!['.'].is_prefix_of(f)) by {
        if seq!['.'].is_prefix_of(f) {
            assert(f.subrange(0, 1)[0] == f[0]);
        }
    }
    // The stem names itself.
    let mapped = stem.map_values(|c: char| sanitize_char(c));
    assert(mapped =~= stem);
    lemma_fit_len(stem, 140);
    assert(stem.take(stem.len() as int) =~= stem);
    assert(crate::text::char_suffix_len(stem, '.') == 0);
    assert(stem.take(stem.len() - 0) =~= stem);
    assert(crate::text::char_prefix_len(stem, '.') == 0);
    assert(stem.skip(0) =~= stem);
}


/// `root` followed by `/` starts `path` exactly when `path` lies inside `root`.
pub proof fn lemma_slash_prefix_inside(path: Seq<char>, root: Seq<char>)
    ensures
        root.push('/').is_prefix_of(path) <==> lies_inside(path, root),
{
    if root.push('/').is_prefix_of(path) {
        assert(path.subrange(0, root.len() as int) =~= root) by {
            assert forall|k: int| 0 <= k < root.len() implies path[k] == root[k] by {
                assert(path.subrange(0, root.len() as int + 1)[k] == root.push('/')[k]);
            }
        }
        assert(path.subrange(0, root.len() as int + 1)[root.len() as int] == '/');
    }
    if lies_inside(path, root) {
        assert forall|k: int| 0 <= k < root.len() + 1 implies path.subrange(0, root.len() as int + 1)[k]
            == root.push('/')[k] by {
            if k < root.len() {
                assert(path.subrange(0, root.len() as int)[k] == path[k]);
            }
        }
        assert(path.subrange(0, root.len() as int + 1) =~= root.push('/'));
    }
}

} // verus!
