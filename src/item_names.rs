//! Length-prefixed text in frame payloads that looks like item names or ids.
use vstd::prelude::*;
use crate::capture::PacketCapture;
use crate::parser::{string_from_utf8, utf8_decoded};
use vstd::std_specs::iter::IteratorSpec;

verus! {

broadcast use {vstd::string::axiom_spec_iter, vstd::string::next_postcondition};

/// Longest text that the scan takes.
pub const MAX_NAME_BYTES: usize = 200;

/// Shortest text that the scan takes.
pub const MIN_NAME_BYTES: usize = 3;

/// Hiragana, katakana or a CJK unified ideograph.
pub open spec fn is_japanese_char(c: char) -> bool {
    ||| 0x3040 <= c as u32 <= 0x309f
    ||| 0x30a0 <= c as u32 <= 0x30ff
    ||| 0x4e00 <= c as u32 <= 0x9faf
}

/// An ASCII letter or digit, `_` or `-`.
pub open spec fn is_id_char(c: char) -> bool {
    ||| 0x30 <= c as u32 <= 0x39
    ||| 0x41 <= c as u32 <= 0x5a
    ||| 0x61 <= c as u32 <= 0x7a
    ||| c == '_'
    ||| c == '-'
}

/// A control code: general category Cc, U+0000 to U+001F and U+007F to
/// U+009F.
pub open spec fn is_control_char(c: char) -> bool {
    c as u32 <= 0x1f || 0x7f <= c as u32 <= 0x9f
}

/// A guild-tagged player name: `[` first and a `]` somewhere.
pub open spec fn is_player_name(s: Seq<char>) -> bool {
    s.len() > 0 && s[0] == '[' && s.contains(']')
}

/// Whether decoded text is taken: Japanese text or an ASCII id, not a
/// player name, with no control codes.
pub open spec fn is_meaningful(s: Seq<char>) -> bool {
    &&& (exists|i: int| 0 <= i < s.len() && #[trigger] is_japanese_char(s[i])) || (forall|i: int|
        0 <= i < s.len() ==> #[trigger] is_id_char(s[i]))
    &&& !is_player_name(s)
    &&& forall|i: int| 0 <= i < s.len() ==> !#[trigger] is_control_char(s[i])
}

/// Whether the `n` bytes at `from` are meaningful UTF-8 text of a length
/// that the scan takes.
pub open spec fn text_at(p: Seq<u8>, from: int, n: int) -> bool {
    &&& MIN_NAME_BYTES <= n <= MAX_NAME_BYTES
    &&& from + n <= p.len()
    &&& utf8_decoded(p.subrange(from, from + n)) matches Some(s) && is_meaningful(s)
}

/// The text of the `n` bytes at `from`.
pub open spec fn text_of(p: Seq<u8>, from: int, n: int) -> Seq<char> {
    utf8_decoded(p.subrange(from, from + n))->Some_0
}

/// The big-endian 2-byte length at `i`.
pub open spec fn be_len(p: Seq<u8>, i: int) -> int {
    p[i] * 256 + p[i + 1]
}

/// The texts found from offset `i` on: at each offset a 1-byte length
/// prefix is tried, then a 2-byte big-endian one; a text that is taken is
/// skipped over, else the scan moves one byte on. It stops when fewer than
/// four bytes remain.
pub open spec fn found_from(p: Seq<u8>, i: int) -> Seq<Seq<char>>
    decreases p.len() - i,
{
    if i < 0 || i + 3 >= p.len() {
        Seq::empty()
    } else if text_at(p, i + 1, p[i] as int) {
        seq![text_of(p, i + 1, p[i] as int)] + found_from(p, i + 1 + p[i])
    } else if text_at(p, i + 2, be_len(p, i)) {
        seq![text_of(p, i + 2, be_len(p, i))] + found_from(p, i + 2 + be_len(p, i))
    } else {
        found_from(p, i + 1)
    }
}

/// Lexicographic order by code point, which for UTF-8 text is also the
/// order of the bytes.
pub open spec fn lex_lt(a: Seq<char>, b: Seq<char>) -> bool
    decreases a.len(),
{
    if a.len() == 0 {
        b.len() > 0
    } else if b.len() == 0 {
        false
    } else if a[0] != b[0] {
        (a[0] as u32) < (b[0] as u32)
    } else {
        lex_lt(a.drop_first(), b.drop_first())
    }
}

/// Whether `s` is in strictly increasing order.
pub open spec fn strictly_sorted(s: Seq<Seq<char>>) -> bool {
    forall|i: int, j: int| 0 <= i < j < s.len() ==> lex_lt(#[trigger] s[i], #[trigger] s[j])
}

/// The text of each string of `v`.
pub open spec fn string_views(v: Seq<String>) -> Seq<Seq<char>> {
    v.map_values(|s: String| s@)
}

/// The text of each char vector of `v`.
pub open spec fn char_views(v: Seq<Vec<char>>) -> Seq<Seq<char>> {
    v.map_values(|s: Vec<char>| s@)
}

proof fn lemma_lex_irreflexive(a: Seq<char>)
    ensures
        !lex_lt(a, a),
    decreases a.len(),
{
    if a.len() > 0 {
        lemma_lex_irreflexive(a.drop_first());
    }
}

proof fn lemma_lex_transitive(a: Seq<char>, b: Seq<char>, c: Seq<char>)
    requires
        lex_lt(a, b),
        lex_lt(b, c),
    ensures
        lex_lt(a, c),
    decreases a.len(),
{
    if a.len() > 0 && b.len() > 0 && c.len() > 0 && a[0] == b[0] && b[0] == c[0] {
        lemma_lex_transitive(a.drop_first(), b.drop_first(), c.drop_first());
    }
}

proof fn lemma_code_injective(x: char, y: char)
    requires
        x != y,
    ensures
        (x as u32) != (y as u32),
{
}

proof fn lemma_lex_total(a: Seq<char>, b: Seq<char>)
    requires
        a != b,
    ensures
        lex_lt(a, b) || lex_lt(b, a),
    decreases a.len(),
{
    if a.len() == 0 || b.len() == 0 {
        if a.len() == 0 && b.len() == 0 {
            assert(a =~= b);
        }
    } else if a[0] != b[0] {
        lemma_code_injective(a[0], b[0]);
    } else if a.drop_first() =~= b.drop_first() {
        assert forall|i: int| 0 <= i < a.len() implies a[i] == b[i] by {
            if i > 0 {
                assert(a[i] == a.drop_first()[i - 1]);
                assert(b[i] == b.drop_first()[i - 1]);
            }
        }
        assert(a =~= b);
    } else {
        lemma_lex_total(a.drop_first(), b.drop_first());
    }
}

/// Whether `a` comes before `b` in code point order.
fn lex_less(a: &Vec<char>, b: &Vec<char>) -> (r: bool)
    ensures
        r == lex_lt(a@, b@),
{
    let mut i: usize = 0;
    assert(a@.subrange(0, a@.len() as int) =~= a@);
    assert(b@.subrange(0, b@.len() as int) =~= b@);
    while i < a.len() && i < b.len()
        invariant
            i <= a@.len(),
            i <= b@.len(),
            lex_lt(a@, b@) == lex_lt(a@.subrange(i as int, a@.len() as int), b@.subrange(i as int, b@.len() as int)),
        decreases a@.len() - i,
    {
        let x = a[i];
        let y = b[i];
        let ghost sa = a@.subrange(i as int, a@.len() as int);
        let ghost sb = b@.subrange(i as int, b@.len() as int);
        if x != y {
            assert(sa[0] == x && sb[0] == y);
            return (x as u32) < (y as u32);
        }
        assert(sa.drop_first() =~= a@.subrange(i + 1, a@.len() as int));
        assert(sb.drop_first() =~= b@.subrange(i + 1, b@.len() as int));
        i = i + 1;
    }
    let ghost sa = a@.subrange(i as int, a@.len() as int);
    let ghost sb = b@.subrange(i as int, b@.len() as int);
    assert(sa.len() == 0 || sb.len() == 0);
    i < b.len()
}

/// The chars of `s`, in order.
fn chars_of(s: &str) -> (r: Vec<char>)
    ensures
        r@ == s@,
{
    let mut it = s.chars();
    let mut r: Vec<char> = Vec::new();
    loop
        invariant
            r@ + it.remaining() == s@,
            it.decrease() is Some,
        decreases it.decrease()->0,
    {
        let ghost before = it.remaining();
        match it.next() {
            Some(c) => {
                r.push(c);
                assert(r@ + it.remaining() =~= s@);
            },
            None => {
                assert(r@ =~= s@);
                return r;
            },
        }
    }
}

/// Whether decoded text is taken by the scan.
fn meaningful(cs: &Vec<char>) -> (r: bool)
    ensures
        r == is_meaningful(cs@),
{
    let n = cs.len();
    let mut has_japanese = false;
    let mut all_id = true;
    let mut has_control = false;
    let mut has_close = false;
    let mut i: usize = 0;
    while i < n
        invariant
            n == cs@.len(),
            i <= n,
            has_japanese == exists|j: int| 0 <= j < i && #[trigger] is_japanese_char(cs@[j]),
            all_id == forall|j: int| 0 <= j < i ==> #[trigger] is_id_char(cs@[j]),
            has_control == exists|j: int| 0 <= j < i && #[trigger] is_control_char(cs@[j]),
            has_close == exists|j: int| 0 <= j < i && cs@[j] == ']',
        decreases n - i,
    {
        let c = cs[i];
        let code = c as u32;
        if (0x3040 <= code && code <= 0x309f) || (0x30a0 <= code && code <= 0x30ff) || (0x4e00 <= code && code <= 0x9faf) {
            has_japanese = true;
        }
        if !((0x30 <= code && code <= 0x39) || (0x41 <= code && code <= 0x5a) || (0x61 <= code && code <= 0x7a) || c == '_' || c == '-') {
            all_id = false;
        }
        if code <= 0x1f || (0x7f <= code && code <= 0x9f) {
            has_control = true;
        }
        if c == ']' {
            has_close = true;
        }
        assert(is_japanese_char(cs@[i as int]) == ((0x3040 <= code && code <= 0x309f) || (0x30a0 <= code && code <= 0x30ff) || (0x4e00 <= code && code <= 0x9faf)));
        assert(is_control_char(cs@[i as int]) == (code <= 0x1f || (0x7f <= code && code <= 0x9f)));
        assert(is_id_char(cs@[i as int]) == ((0x30 <= code && code <= 0x39) || (0x41 <= code && code <= 0x5a) || (0x61 <= code && code <= 0x7a) || c == '_' || c == '-'));
        i = i + 1;
    }
    let player = n > 0 && cs[0] == '[' && has_close;
    assert(player == is_player_name(cs@)) by {
        if has_close {
            let j = choose|j: int| 0 <= j < i && cs@[j] == ']';
            assert(cs@.contains(']'));
        }
        if cs@.contains(']') {
            let j = choose|j: int| 0 <= j < cs@.len() && cs@[j] == ']';
            assert(0 <= j < i && cs@[j] == ']');
        }
    }
    (has_japanese || all_id) && !player && !has_control
}

/// Whether decoded text looks like an item name or id, as the scan judges
/// it.
pub fn is_name_text(text: &str) -> (r: bool)
    ensures
        r == is_meaningful(text@),
{
    let cs = chars_of(text);
    meaningful(&cs)
}

/// Decodes the `n` bytes of `p` at `from` and tells whether the scan takes
/// them; gives the text where it does.
fn try_text(p: &[u8], from: usize, n: usize) -> (r: Option<(String, Vec<char>)>)
    requires
        from + n <= p@.len(),
        MIN_NAME_BYTES <= n <= MAX_NAME_BYTES,
    ensures
        match r {
            Some((s, cs)) => text_at(p@, from as int, n as int) && s@ == text_of(p@, from as int, n as int) && cs@ == s@,
            None => !text_at(p@, from as int, n as int),
        },
{
    let len = p.len();
    assert(from + n <= len);
    let mut bytes: Vec<u8> = Vec::new();
    let mut k: usize = from;
    let end = from + n;
    while k < end
        invariant
            from <= k <= end,
            end == from + n,
            end <= p@.len(),
            bytes@ == p@.subrange(from as int, k as int),
        decreases end - k,
    {
        bytes.push(p[k]);
        k = k + 1;
    }
    match string_from_utf8(bytes) {
        Ok(s) => {
            let cs = chars_of(s.as_str());
            if meaningful(&cs) {
                Some((s, cs))
            } else {
                None
            }
        },
        Err(_) => None,
    }
}

/// Adds `s` to a strictly sorted list unless it is there already.
fn insert_sorted(names: &mut Vec<String>, keys: &mut Vec<Vec<char>>, s: String, cs: Vec<char>)
    requires
        cs@ == s@,
        string_views(old(names)@) == char_views(old(keys)@),
        strictly_sorted(char_views(old(keys)@)),
    ensures
        string_views(final(names)@) == char_views(final(keys)@),
        strictly_sorted(char_views(final(keys)@)),
        forall|t: Seq<char>| #[trigger] char_views(final(keys)@).contains(t) <==> (char_views(old(keys)@).contains(t) || t == s@),
{
    let ghost old_keys = char_views(keys@);
    let mut pos: usize = 0;
    while pos < keys.len() && lex_less(&keys[pos], &cs)
        invariant
            pos <= keys@.len(),
            keys@ == old(keys)@,
            names@ == old(names)@,
            old_keys == char_views(keys@),
            forall|j: int| 0 <= j < pos ==> lex_lt(#[trigger] old_keys[j], cs@),
        decreases keys@.len() - pos,
    {
        pos = pos + 1;
    }
    if pos < keys.len() && !lex_less(&cs, &keys[pos]) {
        proof {
            if keys@[pos as int]@ != cs@ {
                lemma_lex_total(keys@[pos as int]@, cs@);
            }
            assert(old_keys[pos as int] == cs@);
        }
        assert forall|t: Seq<char>| #[trigger] char_views(keys@).contains(t) <==> (old_keys.contains(t) || t == s@) by {
            if t == s@ {
                assert(old_keys[pos as int] == t);
            }
        }
        return;
    }
    proof {
        if pos < keys@.len() {
            lemma_lex_total(keys@[pos as int]@, cs@);
        }
    }
    let ghost x = cs@;
    keys.insert(pos, cs);
    names.insert(pos, s);
    let ghost new_keys = char_views(keys@);
    assert(new_keys =~= old_keys.insert(pos as int, x));
    assert(string_views(names@) =~= new_keys);
    assert forall|i: int, j: int| 0 <= i < j < new_keys.len() implies lex_lt(#[trigger] new_keys[i], #[trigger] new_keys[j]) by {
        if j < pos {
        } else if j == pos {
        } else if i < pos {
            lemma_lex_transitive(new_keys[i], x, old_keys[pos as int]);
            if j - 1 > pos {
                lemma_lex_transitive(new_keys[i], old_keys[pos as int], old_keys[j - 1]);
            }
        } else if i == pos {
            if j - 1 > pos {
                lemma_lex_transitive(x, old_keys[pos as int], old_keys[j - 1]);
            }
        } else {
        }
    }
    assert forall|t: Seq<char>| #[trigger] new_keys.contains(t) <==> (old_keys.contains(t) || t == s@) by {
        if t == s@ {
            assert(new_keys[pos as int] == t);
        }
        if old_keys.contains(t) {
            let j = old_keys.index_of(t);
            if j < pos {
                assert(new_keys[j] == t);
            } else {
                assert(new_keys[j + 1] == t);
            }
        }
        if new_keys.contains(t) {
            let j = new_keys.index_of(t);
            if j < pos {
                assert(old_keys[j] == t);
            } else if j > pos {
                assert(old_keys[j - 1] == t);
            }
        }
    }
}

proof fn lemma_found_step(
    p: Seq<u8>,
    i: int,
    keys0: Seq<Seq<char>>,
    keys1: Seq<Seq<char>>,
    text: Seq<char>,
    rest: Seq<Seq<char>>,
)
    requires
        found_from(p, i) == seq![text] + rest,
        forall|t: Seq<char>| #[trigger] found_from(p, 0).contains(t) <==> (keys0.contains(t) || found_from(p, i).contains(t)),
        forall|t: Seq<char>| #[trigger] keys1.contains(t) <==> (keys0.contains(t) || t == text),
    ensures
        forall|t: Seq<char>| #[trigger] found_from(p, 0).contains(t) <==> (keys1.contains(t) || rest.contains(t)),
{
    let f = seq![text] + rest;
    assert forall|t: Seq<char>| #[trigger] found_from(p, 0).contains(t) <==> (keys1.contains(t) || rest.contains(t)) by {
        if rest.contains(t) {
            let j = rest.index_of(t);
            assert(f[j + 1] == t);
        }
        if f.contains(t) && t != text {
            let j = f.index_of(t);
            assert(rest[j - 1] == t);
        }
        if t == text {
            assert(f[0] == t);
        }
        assert(found_from(p, i).contains(t) == f.contains(t));
    }
}

impl PacketCapture {
    /// The texts in `payload` that look like item names or ids: each is
    /// preceded by its length, in one byte or two big-endian ones, is 3 to
    /// 200 bytes of UTF-8, and is taken as `is_meaningful` says. They come
    /// back sorted, each once.
    pub fn extract_japanese_strings(payload: &[u8]) -> (r: Vec<String>)
        ensures
            strictly_sorted(string_views(r@)),
            forall|t: Seq<char>| #[trigger] string_views(r@).contains(t) <==> found_from(payload@, 0).contains(t),
    {
        let mut names: Vec<String> = Vec::new();
        let mut keys: Vec<Vec<char>> = Vec::new();
        let n = payload.len();
        let mut i: usize = 0;
        assert(string_views(names@) =~= char_views(keys@));
        while n - i > 3
            invariant
                i <= n,
                n == payload@.len(),
                string_views(names@) == char_views(keys@),
                strictly_sorted(char_views(keys@)),
                forall|t: Seq<char>| #[trigger] found_from(payload@, 0).contains(t) <==> (char_views(keys@).contains(t) || found_from(payload@, i as int).contains(t)),
            decreases n - i,
        {
            let short_len = payload[i] as usize;
            if MIN_NAME_BYTES <= short_len && short_len <= MAX_NAME_BYTES && short_len <= n - i - 1 {
                match try_text(payload, i + 1, short_len) {
                    Some((s, cs)) => {
                        let ghost rest = found_from(payload@, i + 1 + short_len);
                        let ghost keys0 = char_views(keys@);
                        let ghost text = s@;
                        assert(found_from(payload@, i as int) == seq![s@] + rest);
                        insert_sorted(&mut names, &mut keys, s, cs);
                        proof {
                            lemma_found_step(payload@, i as int, keys0, char_views(keys@), text, rest);
                        }
                        i = i + 1 + short_len;
                        continue;
                    },
                    None => {},
                }
            }
            let long_len = (payload[i] as usize) * 256 + payload[i + 1] as usize;
            if MIN_NAME_BYTES <= long_len && long_len <= MAX_NAME_BYTES && long_len <= n - i - 2 {
                match try_text(payload, i + 2, long_len) {
                    Some((s, cs)) => {
                        let ghost rest = found_from(payload@, i + 2 + long_len);
                        let ghost keys0 = char_views(keys@);
                        let ghost text = s@;
                        assert(!text_at(payload@, i + 1, payload@[i as int] as int));
                        assert(found_from(payload@, i as int) == seq![s@] + rest);
                        insert_sorted(&mut names, &mut keys, s, cs);
                        proof {
                            lemma_found_step(payload@, i as int, keys0, char_views(keys@), text, rest);
                        }
                        i = i + 2 + long_len;
                        continue;
                    },
                    None => {},
                }
            }
            assert(!text_at(payload@, i + 1, payload@[i as int] as int));
            assert(!text_at(payload@, i + 2, be_len(payload@, i as int)));
            assert(found_from(payload@, i as int) == found_from(payload@, i + 1));
            i = i + 1;
        }
        assert(found_from(payload@, i as int) =~= Seq::<Seq<char>>::empty());
        names
    }
}

} // verus!
