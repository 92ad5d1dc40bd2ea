//! Release checking: which of two version strings is newer, the notice shown
//! when a newer release exists, and the version named by a release record.
use vstd::prelude::*;
use crate::text::{push_str_chars, chars_to_string};

verus! {

/// The pieces of `s` between `'.'` separators (`str::split('.')`); there is
/// always at least one, possibly empty.
pub open spec fn split_dots(s: Seq<char>) -> Seq<Seq<char>>
    decreases s.len(),
{
    if s.len() == 0 {
        seq![seq![]]
    } else {
        let rest = split_dots(s.drop_last());
        if s.last() == '.' {
            rest.push(seq![])
        } else {
            rest.update(rest.len() - 1, rest.last().push(s.last()))
        }
    }
}

pub open spec fn is_digit(c: char) -> bool {
    '0' <= c <= '9'
}

pub open spec fn all_digits(s: Seq<char>) -> bool {
    forall|i: int| 0 <= i < s.len() ==> is_digit(#[trigger] s[i])
}

/// The number written by the decimal digits `s`.
pub open spec fn digits_value(s: Seq<char>) -> nat
    decreases s.len(),
{
    if s.len() == 0 {
        0
    } else {
        digits_value(s.drop_last()) * 10 + ((s.last() as nat) - 48) as nat
    }
}

/// `u32::from_str`: an optional leading `'+'`, then at least one ASCII digit,
/// the value fitting in a `u32`.
pub open spec fn parse_u32(s: Seq<char>) -> Option<u32> {
    let d = if s.len() > 0 && s[0] == '+' {
        s.drop_first()
    } else {
        s
    };
    if d.len() == 0 || !all_digits(d) || digits_value(d) > u32::MAX {
        None
    } else {
        Some(digits_value(d) as u32)
    }
}

/// The pieces that parse as numbers, in order (`filter_map(parse().ok())`).
pub open spec fn parsed_numbers(pieces: Seq<Seq<char>>) -> Seq<u32>
    decreases pieces.len(),
{
    if pieces.len() == 0 {
        seq![]
    } else {
        let rest = parsed_numbers(pieces.drop_last());
        match parse_u32(pieces.last()) {
            Some(v) => rest.push(v),
            None => rest,
        }
    }
}

pub open spec fn nth_or_zero(s: Seq<u32>, i: int) -> u32 {
    if i < s.len() {
        s[i]
    } else {
        0
    }
}

/// The (major, minor, patch) triple of a version string: the first three
/// dot-separated pieces that are numbers, missing ones taken as 0.
pub open spec fn version_triple(s: Seq<char>) -> (u32, u32, u32) {
    let nums = parsed_numbers(split_dots(s));
    (nth_or_zero(nums, 0), nth_or_zero(nums, 1), nth_or_zero(nums, 2))
}

/// Lexicographic order of triples.
pub open spec fn triple_gt(a: (u32, u32, u32), b: (u32, u32, u32)) -> bool {
    ||| a.0 > b.0
    ||| a.0 == b.0 && a.1 > b.1
    ||| a.0 == b.0 && a.1 == b.1 && a.2 > b.2
}

pub open spec fn newer(latest: Seq<char>, current: Seq<char>) -> bool {
    triple_gt(version_triple(latest), version_triple(current))
}

proof fn lemma_split_dots_nonempty(s: Seq<char>)
    ensures
        split_dots(s).len() >= 1,
    decreases s.len(),
{
    if s.len() > 0 {
        lemma_split_dots_nonempty(s.drop_last());
    }
}

proof fn lemma_parsed_numbers_push(pieces: Seq<Seq<char>>, p: Seq<char>)
    ensures
        parsed_numbers(pieces.push(p)) == match parse_u32(p) {
            Some(v) => parsed_numbers(pieces).push(v),
            None => parsed_numbers(pieces),
        },
{
    assert(pieces.push(p).drop_last() =~= pieces);
}

/// `u32::from_str` on a piece held as characters.
fn parse_piece(s: &Vec<char>) -> (r: Option<u32>)
    ensures
        r == parse_u32(s@),
{
    let ghost d = if s@.len() > 0 && s@[0] == '+' {
        s@.drop_first()
    } else {
        s@
    };
    let start: usize = if s.len() > 0 && s[0] == '+' {
        1
    } else {
        0
    };
    assert(d =~= s@.subrange(start as int, s@.len() as int));
    if start == s.len() {
        return None;
    }
    let mut acc: u64 = 0;
    let mut i: usize = start;
    while i < s.len()
        invariant
            start <= i <= s@.len(),
            d =~= s@.subrange(start as int, s@.len() as int),
            d == (if s@.len() > 0 && s@[0] == '+' { s@.drop_first() } else { s@ }),
            all_digits(s@.subrange(start as int, i as int)),
            acc as nat == if digits_value(s@.subrange(start as int, i as int)) > u32::MAX {
                u32::MAX as nat + 1
            } else {
                digits_value(s@.subrange(start as int, i as int))
            },
        decreases s.len() - i,
    {
        let c = s[i];
        if !('0' <= c && c <= '9') {
            assert(!all_digits(d)) by {
                assert(d[i - start] == c);
                assert(!is_digit(d[i - start]));
            }
            assert(parse_u32(s@) is None);
            return None;
        }
        let ghost prev = s@.subrange(start as int, i as int);
        let ghost next = s@.subrange(start as int, i + 1);
        assert(next.drop_last() =~= prev);
        assert(next.last() == c);
        assert(all_digits(next)) by {
            assert forall|j: int| 0 <= j < next.len() implies is_digit(#[trigger] next[j]) by {
                if j < prev.len() {
                    assert(next[j] == prev[j]);
                }
            }
        }
        let dv = (c as u32 - 48) as u64;
        let sum = acc * 10 + dv;
        acc = if sum > 4294967295 {
            4294967296
        } else {
            sum
        };
        i = i + 1;
    }
    assert(s@.subrange(start as int, s@.len() as int) =~= d);
    if acc > 4294967295 {
        None
    } else {
        Some(acc as u32)
    }
}

/// The numeric pieces of a version string, in order.
fn version_numbers(s: &str) -> (nums: Vec<u32>)
    ensures
        nums@ == parsed_numbers(split_dots(s@)),
{
    let n = s.unicode_len();
    let mut nums: Vec<u32> = Vec::new();
    let mut cur: Vec<char> = Vec::new();
    let mut i: usize = 0;
    proof {
        lemma_split_dots_nonempty(s@.subrange(0, 0));
    }
    while i < n
        invariant
            n == s@.len(),
            i <= n,
            split_dots(s@.subrange(0, i as int)).len() >= 1,
            nums@ == parsed_numbers(split_dots(s@.subrange(0, i as int)).drop_last()),
            cur@ == split_dots(s@.subrange(0, i as int)).last(),
        decreases n - i,
    {
        let c = s.get_char(i);
        let ghost prefix = s@.subrange(0, i as int);
        let ghost next = s@.subrange(0, i + 1);
        assert(next.drop_last() =~= prefix);
        assert(next.last() == c);
        let ghost sp = split_dots(prefix);
        if c == '.' {
            let v = parse_piece(&cur);
            proof {
                assert(sp =~= sp.drop_last().push(sp.last()));
                lemma_parsed_numbers_push(sp.drop_last(), sp.last());
                assert(split_dots(next) == sp.push(seq![]));
                assert(split_dots(next).drop_last() =~= sp);
            }
            match v {
                Some(x) => nums.push(x),
                None => {},
            }
            cur = Vec::new();
            assert(cur@ =~= split_dots(next).last());
        } else {
            cur.push(c);
            proof {
                assert(split_dots(next) == sp.update(sp.len() - 1, sp.last().push(c)));
                assert(split_dots(next).drop_last() =~= sp.drop_last());
            }
        }
        i = i + 1;
    }
    assert(s@.subrange(0, n as int) =~= s@);
    let ghost sp = split_dots(s@);
    proof {
        assert(sp =~= sp.drop_last().push(sp.last()));
        lemma_parsed_numbers_push(sp.drop_last(), sp.last());
    }
    let v = parse_piece(&cur);
    match v {
        Some(x) => nums.push(x),
        None => {},
    }
    nums
}

fn version_of(s: &str) -> (t: (u32, u32, u32))
    ensures
        t == version_triple(s@),
{
    let nums = version_numbers(s);
    let a = if nums.len() > 0 { nums[0] } else { 0 };
    let b = if nums.len() > 1 { nums[1] } else { 0 };
    let c = if nums.len() > 2 { nums[2] } else { 0 };
    (a, b, c)
}

/// Simple semver comparison: true exactly when the (major, minor, patch)
/// triple of `latest` is greater than that of `current`.
pub fn is_newer(latest: &str, current: &str) -> (b: bool)
    ensures
        b == newer(latest@, current@),
{
    let l = version_of(latest);
    let c = version_of(current);
    l.0 > c.0 || (l.0 == c.0 && l.1 > c.1) || (l.0 == c.0 && l.1 == c.1 && l.2 > c.2)
}

/// The notice printed when `latest` is newer than the running `current`.
pub open spec fn notice_text(latest: Seq<char>, current: Seq<char>) -> Seq<char> {
    "\n  firemark v"@ + latest + " is available (you have v"@ + current + ").\n  Update:  "@
        + "curl -fsSL https://raw.githubusercontent.com/Vitruves/firemark/main/install.sh | sh"@
        + "\n"@
}

/// The update notice to show, if `latest` is newer than `current`; nothing
/// otherwise.
pub fn update_notice(latest: &str, current: &str) -> (notice: Option<String>)
    ensures
        notice is Some <==> newer(latest@, current@),
        notice matches Some(t) ==> t@ == notice_text(latest@, current@),
{
    if !is_newer(latest, current) {
        return None;
    }
    let mut out: Vec<char> = Vec::new();
    push_str_chars(&mut out, "\n  firemark v");
    push_str_chars(&mut out, latest);
    push_str_chars(&mut out, " is available (you have v");
    push_str_chars(&mut out, current);
    push_str_chars(&mut out, ").\n  Update:  ");
    push_str_chars(
        &mut out,
        "curl -fsSL https://raw.githubusercontent.com/Vitruves/firemark/main/install.sh | sh",
    );
    push_str_chars(&mut out, "\n");
    assert(out@ =~= notice_text(latest@, current@));
    Some(chars_to_string(&out))
}

/// The `tag_name` string of a release record given as JSON text, if the text
/// is a JSON value with such a string field.
pub uninterp spec fn release_tag(body: Seq<char>) -> Option<Seq<char>>;

/// Parses `body` with `serde_json` and reads its `tag_name` field.
#[verifier::external_body]
fn release_tag_name(body: &str) -> (tag: Option<String>)
    ensures
        release_tag(body@) == match tag {
            Some(t) => Some(t@),
            None => None::<Seq<char>>,
        },
{
    let value: serde_json::Value = serde_json::from_str(body).ok()?;
    let tag = value.get("tag_name")?.as_str()?;
    Some(tag.to_string())
}

/// `s` without its leading `'v'` characters (`trim_start_matches('v')`).
pub open spec fn strip_leading_v(s: Seq<char>) -> Seq<char>
    decreases s.len(),
{
    if s.len() > 0 && s[0] == 'v' {
        strip_leading_v(s.drop_first())
    } else {
        s
    }
}

/// The version a release tag names: the tag without its leading `v`
/// characters (`v0.1.4` gives `0.1.4`).
pub fn version_of_tag(tag: &str) -> (version: String)
    ensures
        version@ == strip_leading_v(tag@),
{
    let n = tag.unicode_len();
    let mut k: usize = 0;
    assert(tag@.subrange(0, n as int) =~= tag@);
    while k < n && tag.get_char(k) == 'v'
        invariant
            n == tag@.len(),
            k <= n,
            strip_leading_v(tag@.subrange(k as int, n as int)) == strip_leading_v(tag@),
        decreases n - k,
    {
        assert(tag@.subrange(k as int, n as int).drop_first() =~= tag@.subrange(
            k + 1,
            n as int,
        ));
        k = k + 1;
    }
    let mut out: Vec<char> = Vec::new();
    let mut i: usize = k;
    while i < n
        invariant
            n == tag@.len(),
            k <= i <= n,
            out@ == tag@.subrange(k as int, i as int),
        decreases n - i,
    {
        out.push(tag.get_char(i));
        i = i + 1;
        assert(out@ =~= tag@.subrange(k as int, i as int));
    }
    if k < n {
        assert(tag@.subrange(k as int, n as int)[0] == tag@[k as int]);
    }
    assert(strip_leading_v(out@) == out@);
    chars_to_string(&out)
}

/// The version a release record announces: its tag with the leading `v`
/// removed.
pub fn latest_version(body: &str) -> (version: Option<String>)
    ensures
        version is Some <==> release_tag(body@) is Some,
        version matches Some(v) ==> v@ == strip_leading_v(release_tag(body@)->0),
{
    match release_tag_name(body) {
        None => None,
        Some(t) => Some(version_of_tag(t.as_str())),
    }
}


/// "Newer" is a strict order on version strings: no version is newer than
/// itself, of two versions at most one is newer than the other, and a
/// version newer than a newer one is newer still.
pub proof fn newer_is_strict_order(a: Seq<char>, b: Seq<char>, c: Seq<char>)
    ensures
        !newer(a, a),
        newer(a, b) ==> !newer(b, a),
        newer(a, b) && newer(b, c) ==> newer(a, c),
{
}

} // verus!
