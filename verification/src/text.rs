//! Character and string helpers shared by the registry and the fetcher:
//! ASCII case folding, identifier and sort-prefix construction, decimal
//! parsing, and a lexicographic order on strings.

use vstd::prelude::*;
use vstd::string::*;

verus! {

/// ASCII lower-casing of a single character: `'A'..='Z'` shift down by 32,
/// everything else unchanged.
pub open spec fn spec_lower_char(c: char) -> char {
    if 65 <= c as u32 && c as u32 <= 90 {
        (((c as u32) + 32) as u8) as char
    } else {
        c
    }
}

/// ASCII lower-casing of a whole character sequence.
pub open spec fn spec_lower(s: Seq<char>) -> Seq<char> {
    s.map_values(|c: char| spec_lower_char(c))
}

pub fn lower_char(c: char) -> (r: char)
    ensures
        r == spec_lower_char(c),
{
    let n: u32 = c as u32;
    if 65 <= n && n <= 90 {
        ((n + 32) as u8) as char
    } else {
        c
    }
}

/// Relies on `String::push`: appends the given character to the string.
#[verifier::external_body]
pub fn push_char(s: &mut String, c: char)
    ensures
        final(s)@ == old(s)@.push(c),
{
    s.push(c)
}

/// Character-for-character string equality.
pub fn str_eq(a: &str, b: &str) -> (r: bool)
    ensures
        r == (a@ == b@),
{
    let alen = a.unicode_len();
    let blen = b.unicode_len();
    if alen != blen {
        return false;
    }
    let mut i: usize = 0;
    while i < alen
        invariant
            alen == a@.len(),
            blen == b@.len(),
            alen == blen,
            i <= alen,
            forall|k: int| 0 <= k < i ==> a@[k] == b@[k],
        decreases alen - i,
    {
        if a.get_char(i) != b.get_char(i) {
            return false;
        }
        i = i + 1;
    }
    proof {
        assert(a@ =~= b@);
    }
    true
}

/// Whether `p` is a prefix of `s`.
pub fn str_starts_with(s: &str, p: &str) -> (r: bool)
    ensures
        r == p@.is_prefix_of(s@),
{
    let plen = p.unicode_len();
    let slen = s.unicode_len();
    if plen > slen {
        return false;
    }
    let mut i: usize = 0;
    while i < plen
        invariant
            plen == p@.len(),
            slen == s@.len(),
            plen <= slen,
            i <= plen,
            forall|k: int| 0 <= k < i ==> s@[k] == p@[k],
        decreases plen - i,
    {
        if s.get_char(i) != p.get_char(i) {
            proof {
                assert(s@.subrange(0, p@.len() as int)[i as int] != p@[i as int]);
            }
            return false;
        }
        i = i + 1;
    }
    proof {
        assert(p@ =~= s@.subrange(0, p@.len() as int));
    }
    true
}

/// ASCII lower-casing of a whole string.
pub fn lower_str(s: &str) -> (r: String)
    ensures
        r@ == spec_lower(s@),
{
    let len = s.unicode_len();
    let mut out = String::new();
    let mut i: usize = 0;
    while i < len
        invariant
            len == s@.len(),
            i <= len,
            out@ == spec_lower(s@.take(i as int)),
        decreases len - i,
    {
        let c = lower_char(s.get_char(i));
        push_char(&mut out, c);
        proof {
            assert(spec_lower(s@.take(i + 1)) =~= spec_lower(s@.take(i as int)).push(
                spec_lower_char(s@[i as int]),
            ));
        }
        i = i + 1;
    }
    proof {
        assert(s@.take(len as int) =~= s@);
    }
    out
}

} // verus!

verus! {

/// Characters that can serve as a sort prefix: ASCII digits and letters.
pub open spec fn spec_is_sort_char(c: char) -> bool {
    (48 <= c as u32 && c as u32 <= 57) || (97 <= c as u32 && c as u32 <= 122) || (65 <= c as u32
        && c as u32 <= 90)
}

pub open spec fn spec_has_sort_char(s: Seq<char>) -> bool {
    exists|i: int| 0 <= i < s.len() && spec_is_sort_char(s[i])
}

/// The first ASCII alphanumeric character of `s`, lower-cased; the sort
/// bucket a scheme name falls under.
pub open spec fn spec_prefix_char(s: Seq<char>) -> char
    decreases s.len(),
{
    if s.len() == 0 {
        ' '
    } else if spec_is_sort_char(s[0]) {
        spec_lower_char(s[0])
    } else {
        spec_prefix_char(s.drop_first())
    }
}

/// The sort key of a scheme name: its first alphanumeric character
/// lower-cased (leading punctuation skipped), with the whole name
/// lower-cased as tie-break.
pub fn make_prefix(key: &str) -> (r: (char, String))
    requires
        spec_has_sort_char(key@),
    ensures
        r.0 == spec_prefix_char(key@),
        r.1@ == spec_lower(key@),
{
    let len = key.unicode_len();
    let mut i: usize = 0;
    proof {
        assert(key@.skip(0) =~= key@);
    }
    while i < len
        invariant
            len == key@.len(),
            i <= len,
            spec_has_sort_char(key@.skip(i as int)),
            spec_prefix_char(key@.skip(i as int)) == spec_prefix_char(key@),
        decreases len - i,
    {
        let c = key.get_char(i);
        let n: u32 = c as u32;
        if (48 <= n && n <= 57) || (97 <= n && n <= 122) || (65 <= n && n <= 90) {
            proof {
                assert(key@.skip(i as int)[0] == key@[i as int]);
            }
            return (lower_char(c), lower_str(key));
        }
        proof {
            assert(key@.skip(i as int)[0] == key@[i as int]);
            assert(key@.skip(i as int).drop_first() =~= key@.skip(i + 1));
            let w = choose|k: int|
                0 <= k < key@.skip(i as int).len() && spec_is_sort_char(key@.skip(i as int)[k]);
            assert(key@.skip(i + 1)[w - 1] == key@.skip(i as int)[w]);
        }
        i = i + 1;
    }
    proof {
        assert(key@.skip(len as int).len() == 0);
        assert(false);
    }
    (' ', String::new())
}

/// Whether the character counts as alphanumeric for identifier purposes.
/// Left uninterpreted: the Unicode tables decide.
pub uninterp spec fn unicode_alphanumeric(c: char) -> bool;

/// Relies on `char::is_alphanumeric`: whether the character is a Unicode
/// letter or numeric character; a function of the character alone.
#[verifier::external_body]
fn is_alphanumeric_char(c: char) -> (r: bool)
    ensures
        r == unicode_alphanumeric(c),
{
    c.is_alphanumeric()
}

/// One left-to-right pass of identifier construction over an already
/// lower-cased character sequence: alphanumeric runs are kept and joined
/// by single dashes; `gap` records whether a separator was crossed since
/// the last kept character.
pub open spec fn spec_ident_rec(s: Seq<char>, out: Seq<char>, gap: bool) -> Seq<char>
    decreases s.len(),
{
    if s.len() == 0 {
        out
    } else if unicode_alphanumeric(s[0]) {
        if gap && out.len() > 0 {
            spec_ident_rec(s.drop_first(), out.push('-').push(s[0]), false)
        } else {
            spec_ident_rec(s.drop_first(), out.push(s[0]), false)
        }
    } else {
        spec_ident_rec(s.drop_first(), out, true)
    }
}

/// The anchor identifier of a scheme name: the name lower-cased, split on
/// non-alphanumeric characters, empty fields dropped, joined with dashes.
pub open spec fn spec_ident(s: Seq<char>) -> Seq<char> {
    spec_ident_rec(spec_lower(s), Seq::<char>::empty(), false)
}

/// Builds the anchor identifier used for documentation links.
pub fn make_ident(key: &str) -> (r: String)
    ensures
        r@ == spec_ident(key@),
{
    let low = lower_str(key);
    let len = low.as_str().unicode_len();
    let mut out = String::new();
    let mut gap = false;
    let mut i: usize = 0;
    proof {
        assert(low@.skip(0) =~= low@);
    }
    while i < len
        invariant
            len == low@.len(),
            low@ == spec_lower(key@),
            i <= len,
            spec_ident_rec(low@.skip(i as int), out@, gap) == spec_ident(key@),
        decreases len - i,
    {
        let c = low.as_str().get_char(i);
        proof {
            assert(low@.skip(i as int)[0] == low@[i as int]);
            assert(low@.skip(i as int).drop_first() =~= low@.skip(i + 1));
        }
        if is_alphanumeric_char(c) {
            if gap && out.as_str().unicode_len() > 0 {
                push_char(&mut out, '-');
            }
            push_char(&mut out, c);
            gap = false;
        } else {
            gap = true;
        }
        i = i + 1;
    }
    proof {
        assert(low@.skip(len as int).len() == 0);
    }
    out
}

} // verus!

verus! {

pub open spec fn spec_is_digit(c: char) -> bool {
    48 <= c as u32 && c as u32 <= 57
}

pub open spec fn spec_digit_val(c: char) -> nat {
    if 48 <= c as u32 {
        (c as u32 - 48) as nat
    } else {
        0
    }
}

/// A non-empty, all-digit character sequence.
pub open spec fn spec_digits_ok(s: Seq<char>) -> bool {
    s.len() > 0 && forall|i: int| 0 <= i < s.len() ==> spec_is_digit(s[i])
}

/// The numeric value of a digit sequence, most significant digit first.
pub open spec fn spec_digits_val(s: Seq<char>) -> nat
    decreases s.len(),
{
    if s.len() == 0 {
        0
    } else {
        spec_digits_val(s.drop_last()) * 10 + spec_digit_val(s.last())
    }
}

/// What `str::parse::<u64>` accepts: an optional leading `+`, then one or
/// more decimal digits whose value fits in a `u64`.
pub open spec fn spec_parse_u64(s: Seq<char>) -> Option<u64> {
    let t = if s.len() > 0 && s[0] == '+' {
        s.drop_first()
    } else {
        s
    };
    if spec_digits_ok(t) && spec_digits_val(t) <= u64::MAX {
        Some(spec_digits_val(t) as u64)
    } else {
        None
    }
}

/// A prefix of a digit sequence never has a larger value than the whole.
proof fn lemma_digits_val_prefix(s: Seq<char>, k: int)
    requires
        0 <= k <= s.len(),
    ensures
        spec_digits_val(s.take(k)) <= spec_digits_val(s),
    decreases s.len(),
{
    if k == s.len() {
        assert(s.take(k) =~= s);
    } else {
        lemma_digits_val_prefix(s.drop_last(), k);
        assert(s.drop_last().take(k) =~= s.take(k));
    }
}

/// Parses a decimal `u64` exactly as `str::parse::<u64>` does, except that
/// a leading `-` or other sign handling beyond `+` is rejected alike.
pub fn parse_u64(s: &str) -> (r: Option<u64>)
    ensures
        r == spec_parse_u64(s@),
{
    let len = s.unicode_len();
    let start: usize = if len > 0 && s.get_char(0) == '+' {
        1
    } else {
        0
    };
    let ghost t = if start == 1 {
        s@.drop_first()
    } else {
        s@
    };
    proof {
        assert(t =~= s@.subrange(start as int, len as int));
    }
    if len == start {
        return None;
    }
    let mut val: u64 = 0;
    let mut i: usize = start;
    while i < len
        invariant
            len == s@.len(),
            start <= i <= len,
            start == 0 || start == 1,
            start == 1 ==> len > 1 && s@[0] == '+',
            start == 0 ==> !(len > 0 && s@[0] == '+'),
            t == s@.subrange(start as int, len as int),
            forall|k: int| start <= k < i ==> spec_is_digit(s@[k]),
            val == spec_digits_val(s@.subrange(start as int, i as int)),
        decreases len - i,
    {
        let c = s.get_char(i);
        let n: u32 = c as u32;
        if !(48 <= n && n <= 57) {
            proof {
                assert(t[i - start] == s@[i as int]);
                assert(!spec_is_digit(t[i - start]));
                assert(!spec_digits_ok(t));
                let tt = if s@.len() > 0 && s@[0] == '+' {
                    s@.drop_first()
                } else {
                    s@
                };
                assert(tt == t);
                assert(spec_parse_u64(s@) is None);
            }
            return None;
        }
        let d: u64 = (n - 48) as u64;
        let step = match val.checked_mul(10) {
            Some(m) => m.checked_add(d),
            None => None,
        };
        proof {
            assert(s@.subrange(start as int, i + 1).drop_last() =~= s@.subrange(
                start as int,
                i as int,
            ));
            assert(s@.subrange(start as int, i + 1).last() == s@[i as int]);
            assert(spec_digits_val(s@.subrange(start as int, i + 1)) == val * 10 + d);
        }
        match step {
            Some(v) => {
                val = v;
            },
            None => {
                proof {
                    assert(t.take(i + 1 - start) =~= s@.subrange(start as int, i + 1));
                    lemma_digits_val_prefix(t, i + 1 - start);
                    assert(spec_digits_val(t) > u64::MAX);
                    let tt = if s@.len() > 0 && s@[0] == '+' {
                        s@.drop_first()
                    } else {
                        s@
                    };
                    assert(tt == t);
                    assert(spec_parse_u64(s@) is None);
                }
                return None;
            },
        }
        i = i + 1;
    }
    proof {
        assert(t =~= s@.subrange(start as int, len as int));
        assert(forall|k: int| 0 <= k < t.len() ==> t[k] == s@[k + start]);
        assert(spec_digits_ok(t));
    }
    Some(val)
}

/// Lexicographic order on character sequences by code point; the order in
/// which the catalog's alias lists are kept.
pub open spec fn spec_str_le(a: Seq<char>, b: Seq<char>) -> bool
    decreases a.len(),
{
    if a.len() == 0 {
        true
    } else if b.len() == 0 {
        false
    } else if (a[0] as u32) < (b[0] as u32) {
        true
    } else if (a[0] as u32) > (b[0] as u32) {
        false
    } else {
        spec_str_le(a.drop_first(), b.drop_first())
    }
}

pub proof fn lemma_str_le_total(a: Seq<char>, b: Seq<char>)
    ensures
        spec_str_le(a, b) || spec_str_le(b, a),
    decreases a.len(),
{
    if a.len() > 0 && b.len() > 0 && (a[0] as u32) == (b[0] as u32) {
        lemma_str_le_total(a.drop_first(), b.drop_first());
    }
}

pub proof fn lemma_str_le_trans(a: Seq<char>, b: Seq<char>, c: Seq<char>)
    requires
        spec_str_le(a, b),
        spec_str_le(b, c),
    ensures
        spec_str_le(a, c),
    decreases a.len(),
{
    if a.len() > 0 && b.len() > 0 && c.len() > 0 && (a[0] as u32) == (b[0] as u32) && (b[0] as u32)
        == (c[0] as u32) {
        lemma_str_le_trans(a.drop_first(), b.drop_first(), c.drop_first());
    }
}

/// Decides the lexicographic order on two strings.
pub fn str_le(a: &str, b: &str) -> (r: bool)
    ensures
        r == spec_str_le(a@, b@),
{
    let alen = a.unicode_len();
    let blen = b.unicode_len();
    let mut i: usize = 0;
    proof {
        assert(a@.skip(0) =~= a@);
        assert(b@.skip(0) =~= b@);
    }
    while i < alen && i < blen
        invariant
            alen == a@.len(),
            blen == b@.len(),
            i <= alen,
            i <= blen,
            spec_str_le(a@, b@) == spec_str_le(a@.skip(i as int), b@.skip(i as int)),
        decreases alen - i,
    {
        let ca = a.get_char(i);
        let cb = b.get_char(i);
        proof {
            assert(a@.skip(i as int)[0] == a@[i as int]);
            assert(b@.skip(i as int)[0] == b@[i as int]);
            assert(a@.skip(i as int).drop_first() =~= a@.skip(i + 1));
            assert(b@.skip(i as int).drop_first() =~= b@.skip(i + 1));
        }
        if (ca as u32) < (cb as u32) {
            return true;
        }
        if (ca as u32) > (cb as u32) {
            return false;
        }
        i = i + 1;
    }
    proof {
        if i >= alen {
            assert(a@.skip(i as int).len() == 0);
        } else {
            assert(b@.skip(i as int).len() == 0);
            assert(a@.skip(i as int).len() > 0);
        }
    }
    alen <= blen
}

} // verus!
