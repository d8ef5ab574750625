//! Validation of the numeric command-line values and the default output file
//! name derived from the place name.

use vstd::prelude::*;
use crate::text::{is_digit, is_ascii_alphanumeric, ascii_lower, char_is_ascii_alphanumeric, char_to_ascii_lower};

verus! {

/// Numeric value of a non-empty run of decimal digits, most significant first.
pub open spec fn digits_value(s: Seq<char>) -> nat
    decreases s.len(),
{
    if s.len() == 0 {
        0
    } else {
        digits_value(s.drop_last()) * 10 + ((s.last() as int) - ('0' as int)) as nat
    }
}

/// The digits of an unsigned decimal literal: an optional leading `+` is dropped.
pub open spec fn unsigned_digits(s: Seq<char>) -> Seq<char> {
    if s.len() > 0 && s[0] == '+' {
        s.drop_first()
    } else {
        s
    }
}

/// `s` is an optional `+` followed by one or more ASCII digits, nothing else.
pub open spec fn is_unsigned_literal(s: Seq<char>) -> bool {
    let d = unsigned_digits(s);
    d.len() > 0 && forall|i: int| 0 <= i < d.len() ==> is_digit(#[trigger] d[i])
}

/// What parsing `s` as an unsigned integer type whose largest value is `max`
/// yields: the value, or `None` when `s` is not a literal or the value is too large.
pub open spec fn parse_unsigned(s: Seq<char>, max: nat) -> Option<nat> {
    if is_unsigned_literal(s) && digits_value(unsigned_digits(s)) <= max {
        Some(digits_value(unsigned_digits(s)))
    } else {
        None
    }
}

proof fn lemma_digits_value_prefix(s: Seq<char>, k: int)
    requires
        0 <= k <= s.len(),
        forall|i: int| 0 <= i < s.len() ==> is_digit(#[trigger] s[i]),
    ensures
        digits_value(s.take(k)) <= digits_value(s),
    decreases s.len() - k,
{
    if k < s.len() {
        lemma_digits_value_prefix(s, k + 1);
        assert(s.take(k + 1).drop_last() =~= s.take(k));
    } else {
        assert(s.take(k) =~= s);
    }
}

/// Parses `s` as an unsigned decimal literal no larger than `max`.
fn parse_unsigned_decimal(s: &str, max: u64) -> (r: Option<u64>)
    ensures
        match r {
            Some(v) => parse_unsigned(s@, max as nat) == Some(v as nat),
            None => parse_unsigned(s@, max as nat) is None,
        },
{
    let n = s.unicode_len();
    let start: usize = if n > 0 && s.get_char(0) == '+' { 1 } else { 0 };
    let ghost d = unsigned_digits(s@);
    assert(d =~= s@.skip(start as int));
    if start == n {
        return None;
    }
    let mut acc: u128 = 0;
    let mut i: usize = start;
    while i < n
        invariant
            n == s@.len(),
            start <= i <= n,
            d =~= s@.skip(start as int),
            d == unsigned_digits(s@),
            acc <= max,
            acc == digits_value(d.take(i - start)),
            forall|j: int| 0 <= j < i - start ==> is_digit(#[trigger] d[j]),
        decreases n - i,
    {
        let c = s.get_char(i);
        if !('0' <= c && c <= '9') {
            assert(d[i - start] == c);
            assert(!is_digit(d[i - start]));
            return None;
        }
        let digit: u128 = ((c as u32) - ('0' as u32)) as u128;
        assert(d.take(i - start + 1).drop_last() =~= d.take(i - start));
        let next: u128 = acc * 10 + digit;
        if next > max as u128 {
            proof {
                if is_unsigned_literal(s@) {
                    lemma_digits_value_prefix(d, i - start + 1);
                }
            }
            return None;
        }
        acc = next;
        i = i + 1;
    }
    assert(d.take(n - start) =~= d);
    Some(acc as u64)
}

/// Accepts a positive `u32` written in decimal (an optional `+`, then digits).
/// Text that is not such a number is refused with
/// `invalid positive integer: <text>`, and zero with `value must be >= 1`.
pub fn parse_positive_u32(value: &str) -> (r: Result<u32, String>)
    ensures
        match parse_unsigned(value@, u32::MAX as nat) {
            None => r matches Err(e) && e@ == "invalid positive integer: "@ + value@,
            Some(v) => if v == 0 {
                r matches Err(e) && e@ == "value must be >= 1"@
            } else {
                r == Ok::<u32, String>(v as u32)
            },
        },
{
    match parse_unsigned_decimal(value, u32::MAX as u64) {
        None => {
            let mut msg = String::from_str("invalid positive integer: ");
            msg.append(value);
            Err(msg)
        },
        Some(v) => {
            if v == 0 {
                Err(String::from_str("value must be >= 1"))
            } else {
                Ok(v as u32)
            }
        },
    }
}

/// Accepts a worker count from 1 to 32 written in decimal. Text that is not a
/// `usize` is refused with `invalid integer: <text>`, a number out of range
/// with `concurrency must be between 1 and 32`.
pub fn parse_concurrency(value: &str) -> (r: Result<usize, String>)
    ensures
        match parse_unsigned(value@, usize::MAX as nat) {
            None => r matches Err(e) && e@ == "invalid integer: "@ + value@,
            Some(v) => if 1 <= v <= 32 {
                r == Ok::<usize, String>(v as usize)
            } else {
                r matches Err(e) && e@ == "concurrency must be between 1 and 32"@
            },
        },
{
    match parse_unsigned_decimal(value, usize::MAX as u64) {
        None => {
            let mut msg = String::from_str("invalid integer: ");
            msg.append(value);
            Err(msg)
        },
        Some(v) => {
            if 1 <= v && v <= 32 {
                Ok(v as usize)
            } else {
                Err(String::from_str("concurrency must be between 1 and 32"))
            }
        },
    }
}


/// What one character of a place name contributes to the file name: letters and
/// digits in lower case, a separator (space, `-`, `_`) as `_`, anything else nothing.
pub open spec fn file_name_char(c: char) -> Option<char> {
    if is_ascii_alphanumeric(c) {
        Some(ascii_lower(c))
    } else if c == ' ' || c == '-' || c == '_' {
        Some('_')
    } else {
        None
    }
}

/// The characters that `file_name_char` keeps, in order.
pub open spec fn kept_file_name_chars(s: Seq<char>) -> Seq<char>
    decreases s.len(),
{
    if s.len() == 0 {
        Seq::empty()
    } else {
        let prefix = kept_file_name_chars(s.drop_last());
        match file_name_char(s.last()) {
            Some(c) => prefix.push(c),
            None => prefix,
        }
    }
}

/// `s` with every run of consecutive underscores shortened to one underscore.
pub open spec fn collapse_underscores(s: Seq<char>) -> Seq<char>
    decreases s.len(),
{
    if s.len() == 0 {
        s
    } else {
        let prefix = collapse_underscores(s.drop_last());
        if s.last() == '_' && prefix.len() > 0 && prefix.last() == '_' {
            prefix
        } else {
            prefix.push(s.last())
        }
    }
}

/// `s` without its leading underscores.
pub open spec fn trim_leading_underscores(s: Seq<char>) -> Seq<char>
    decreases s.len(),
{
    if s.len() > 0 && s[0] == '_' {
        trim_leading_underscores(s.drop_first())
    } else {
        s
    }
}

/// `s` without its trailing underscores.
pub open spec fn trim_trailing_underscores(s: Seq<char>) -> Seq<char>
    decreases s.len(),
{
    if s.len() > 0 && s.last() == '_' {
        trim_trailing_underscores(s.drop_last())
    } else {
        s
    }
}

/// The stem of the default output file name for a place: the kept characters
/// (or `wallpaper` when none is kept), underscore runs collapsed, underscores
/// trimmed from both ends.
pub open spec fn place_file_stem(place: Seq<char>) -> Seq<char> {
    let kept = kept_file_name_chars(place);
    let base = if kept.len() == 0 { "wallpaper"@ } else { kept };
    trim_trailing_underscores(trim_leading_underscores(collapse_underscores(base)))
}

/// The default output file name: `<stem>_z<zoom>.jpg`, where `zoom_label` is the
/// zoom level as it is to appear in the name (two decimals).
pub open spec fn default_file_name(place: Seq<char>, zoom_label: Seq<char>) -> Seq<char> {
    place_file_stem(place) + "_z"@ + zoom_label + ".jpg"@
}

fn kept_chars(place: &str) -> (r: Vec<char>)
    ensures
        r@ == kept_file_name_chars(place@),
{
    let n = place.unicode_len();
    let mut out: Vec<char> = Vec::new();
    let mut i: usize = 0;
    while i < n
        invariant
            n == place@.len(),
            i <= n,
            out@ == kept_file_name_chars(place@.take(i as int)),
        decreases n - i,
    {
        let c = place.get_char(i);
        assert(place@.take(i + 1).drop_last() =~= place@.take(i as int));
        if char_is_ascii_alphanumeric(c) {
            out.push(char_to_ascii_lower(c));
        } else if c == ' ' || c == '-' || c == '_' {
            out.push('_');
        }
        i = i + 1;
    }
    assert(place@.take(n as int) =~= place@);
    out
}

fn collapsed(s: &Vec<char>) -> (r: Vec<char>)
    ensures
        r@ == collapse_underscores(s@),
{
    let mut out: Vec<char> = Vec::new();
    let mut i: usize = 0;
    while i < s.len()
        invariant
            i <= s.len(),
            out@ == collapse_underscores(s@.take(i as int)),
        decreases s.len() - i,
    {
        let c = s[i];
        assert(s@.take(i + 1).drop_last() =~= s@.take(i as int));
        let n = out.len();
        if !(c == '_' && n > 0 && out[n - 1] == '_') {
            out.push(c);
        }
        i = i + 1;
    }
    assert(s@.take(s.len() as int) =~= s@);
    out
}

proof fn lemma_trim_leading(s: Seq<char>, k: int)
    requires
        0 <= k <= s.len(),
        forall|j: int| 0 <= j < k ==> s[j] == '_',
    ensures
        trim_leading_underscores(s) == trim_leading_underscores(s.skip(k)),
    decreases k,
{
    if k > 0 {
        lemma_trim_leading(s.drop_first(), k - 1);
        assert(s.drop_first().skip(k - 1) =~= s.skip(k));
    } else {
        assert(s.skip(0) =~= s);
    }
}

proof fn lemma_trim_trailing(s: Seq<char>, k: int)
    requires
        0 <= k <= s.len(),
        forall|j: int| k <= j < s.len() ==> s[j] == '_',
    ensures
        trim_trailing_underscores(s) == trim_trailing_underscores(s.take(k)),
    decreases s.len() - k,
{
    if k < s.len() {
        lemma_trim_trailing(s.drop_last(), k);
        assert(s.drop_last().take(k) =~= s.take(k));
    } else {
        assert(s.take(k) =~= s);
    }
}

/// The part of the place name that the default output file name starts with.
pub fn place_file_stem_of(place: &str) -> (r: String)
    ensures
        r@ == place_file_stem(place@),
{
    let mut kept = kept_chars(place);
    if kept.len() == 0 {
        let fallback = "wallpaper";
        proof { reveal_strlit("wallpaper"); }
        let n = fallback.unicode_len();
        let mut i: usize = 0;
        while i < n
            invariant
                n == fallback@.len(),
                i <= n,
                kept@ == fallback@.take(i as int),
            decreases n - i,
        {
            kept.push(fallback.get_char(i));
            assert(fallback@.take(i + 1) =~= fallback@.take(i as int).push(fallback@[i as int]));
            i = i + 1;
        }
        assert(fallback@.take(n as int) =~= fallback@);
    }
    let ghost base = kept@;
    assert(base == (if kept_file_name_chars(place@).len() == 0 { "wallpaper"@ } else {
        kept_file_name_chars(place@)
    }));
    let c = collapsed(&kept);
    let mut lo: usize = 0;
    while lo < c.len() && c[lo] == '_'
        invariant
            lo <= c.len(),
            forall|j: int| 0 <= j < lo ==> c@[j] == '_',
        decreases c.len() - lo,
    {
        lo = lo + 1;
    }
    let mut hi: usize = c.len();
    while hi > lo && c[hi - 1] == '_'
        invariant
            lo <= hi <= c.len(),
            forall|j: int| hi <= j < c.len() ==> c@[j] == '_',
        decreases hi,
    {
        hi = hi - 1;
    }
    proof {
        lemma_trim_leading(c@, lo as int);
        let rest = c@.skip(lo as int);
        if lo < c.len() {
            assert(rest[0] != '_');
            assert(trim_leading_underscores(rest) == rest);
        } else {
            assert(rest.len() == 0);
        }
        lemma_trim_trailing(rest, hi - lo);
        assert(rest.take(hi - lo) =~= c@.subrange(lo as int, hi as int));
        if hi > lo {
            assert(c@.subrange(lo as int, hi as int).last() != '_');
        }
    }
    let mut out = String::new();
    let mut i: usize = lo;
    while i < hi
        invariant
            lo <= i <= hi,
            hi <= c.len(),
            out@ == c@.subrange(lo as int, i as int),
        decreases hi - i,
    {
        out.push(c[i]);
        assert(c@.subrange(lo as int, i + 1) =~= c@.subrange(lo as int, i as int).push(c@[i as int]));
        i = i + 1;
    }
    out
}

/// The file name used when no output path is given: `<stem>_z<zoom_label>.jpg`.
pub fn default_output_file_name(place: &str, zoom_label: &str) -> (r: String)
    ensures
        r@ == default_file_name(place@, zoom_label@),
{
    let mut name = place_file_stem_of(place);
    name.append("_z");
    name.append(zoom_label);
    name.append(".jpg");
    name
}


/// A character a file stem may hold: a lower-case ASCII letter, a digit or `_`.
pub open spec fn is_stem_char(c: char) -> bool {
    ('a' <= c && c <= 'z') || is_digit(c) || c == '_'
}

/// Every character of `s` may stand in a file stem.
pub open spec fn all_stem_chars(s: Seq<char>) -> bool {
    forall|i: int| 0 <= i < s.len() ==> is_stem_char(#[trigger] s[i])
}

/// No two underscores in `s` are next to each other.
pub open spec fn no_double_underscore(s: Seq<char>) -> bool {
    forall|i: int| #![trigger s[i]] 0 <= i && i + 1 < s.len() ==> !(s[i] == '_' && s[i + 1] == '_')
}

/// A tidy file stem: lower-case letters, digits and single underscores that
/// neither start nor end it.
pub open spec fn is_tidy_stem(s: Seq<char>) -> bool {
    &&& all_stem_chars(s)
    &&& no_double_underscore(s)
    &&& s.len() > 0 ==> s[0] != '_' && s.last() != '_'
}

proof fn lemma_kept_chars_are_stem_chars(s: Seq<char>)
    ensures
        all_stem_chars(kept_file_name_chars(s)),
    decreases s.len(),
{
    if s.len() > 0 {
        lemma_kept_chars_are_stem_chars(s.drop_last());
        let c = s.last();
        if 'A' <= c && c <= 'Z' {
            assert('a' <= ascii_lower(c) && ascii_lower(c) <= 'z');
        }
    }
}

proof fn lemma_collapse_tidies(s: Seq<char>)
    requires
        all_stem_chars(s),
    ensures
        all_stem_chars(collapse_underscores(s)),
        no_double_underscore(collapse_underscores(s)),
    decreases s.len(),
{
    if s.len() > 0 {
        let t = s.drop_last();
        assert(all_stem_chars(t)) by {
            assert forall|i: int| 0 <= i < t.len() implies is_stem_char(#[trigger] t[i]) by {
                assert(t[i] == s[i]);
            }
        }
        lemma_collapse_tidies(t);
        assert(is_stem_char(s[s.len() - 1]));
    }
}

proof fn lemma_trim_leading_is_suffix(s: Seq<char>)
    ensures
        trim_leading_underscores(s) == s.skip(s.len() - trim_leading_underscores(s).len()),
        trim_leading_underscores(s).len() <= s.len(),
        trim_leading_underscores(s).len() > 0 ==> trim_leading_underscores(s)[0] != '_',
    decreases s.len(),
{
    if s.len() > 0 && s[0] == '_' {
        lemma_trim_leading_is_suffix(s.drop_first());
        let r = trim_leading_underscores(s);
        assert(s.drop_first().skip(s.len() - 1 - r.len()) =~= s.skip(s.len() - r.len()));
    } else {
        assert(s.skip(0) =~= s);
    }
}

proof fn lemma_trim_trailing_is_prefix(s: Seq<char>)
    ensures
        trim_trailing_underscores(s).len() <= s.len(),
        trim_trailing_underscores(s) == s.take(trim_trailing_underscores(s).len() as int),
        trim_trailing_underscores(s).len() > 0 ==> trim_trailing_underscores(s).last() != '_',
    decreases s.len(),
{
    if s.len() > 0 && s.last() == '_' {
        lemma_trim_trailing_is_prefix(s.drop_last());
        let r = trim_trailing_underscores(s);
        assert(s.drop_last().take(r.len() as int) =~= s.take(r.len() as int));
    } else {
        assert(s.take(s.len() as int) =~= s);
    }
}

/// Law: the stem of the default output file name is tidy, whatever the place
/// name: it holds only lower-case ASCII letters, digits and underscores, never
/// two underscores in a row, and no underscore at either end.
pub proof fn lemma_place_file_stem_is_tidy(place: Seq<char>)
    ensures
        is_tidy_stem(place_file_stem(place)),
{
    let kept = kept_file_name_chars(place);
    lemma_kept_chars_are_stem_chars(place);
    let base = if kept.len() == 0 { "wallpaper"@ } else { kept };
    assert(all_stem_chars(base)) by {
        if kept.len() == 0 {
            reveal_strlit("wallpaper");
        }
    }
    lemma_collapse_tidies(base);
    let c = collapse_underscores(base);
    lemma_trim_leading_is_suffix(c);
    let l = trim_leading_underscores(c);
    lemma_trim_trailing_is_prefix(l);
    let t = trim_trailing_underscores(l);
    assert(all_stem_chars(l) && no_double_underscore(l)) by {
        assert forall|i: int| 0 <= i < l.len() implies is_stem_char(#[trigger] l[i]) by {
            assert(l[i] == c[c.len() - l.len() + i]);
        }
        assert forall|i: int| #![trigger l[i]] 0 <= i && i + 1 < l.len() implies !(l[i] == '_' && l[i + 1] == '_') by {
            let k = c.len() - l.len() + i;
            assert(l[i] == c[k]);
            assert(l[i + 1] == c[k + 1]);
        }
    }
    assert forall|i: int| 0 <= i < t.len() implies is_stem_char(#[trigger] t[i]) by {
        assert(t[i] == l[i]);
    }
    assert forall|i: int| #![trigger t[i]] 0 <= i && i + 1 < t.len() implies !(t[i] == '_' && t[i + 1] == '_') by {
        assert(t[i] == l[i]);
        assert(t[i + 1] == l[i + 1]);
    }
    if t.len() > 0 {
        assert(t[0] == l[0]);
    }
}


/// Law: the characters kept from a place name do not depend on where the name
/// is split: the kept characters of `s + t` are those of `s` followed by those
/// of `t`. However long the name, nothing it contributes is dropped.
pub proof fn lemma_kept_chars_concat(s: Seq<char>, t: Seq<char>)
    ensures
        kept_file_name_chars(s + t) == kept_file_name_chars(s) + kept_file_name_chars(t),
    decreases t.len(),
{
    if t.len() == 0 {
        assert(s + t =~= s);
        assert(kept_file_name_chars(s) + kept_file_name_chars(t) =~= kept_file_name_chars(s));
    } else {
        lemma_kept_chars_concat(s, t.drop_last());
        assert((s + t).drop_last() =~= s + t.drop_last());
        assert((s + t).last() == t.last());
        let a = kept_file_name_chars(s);
        let b = kept_file_name_chars(t.drop_last());
        match file_name_char(t.last()) {
            Some(c) => {
                assert((a + b).push(c) =~= a + b.push(c));
            },
            None => {},
        }
    }
}

/// Law: what one character contributes to the file name. A lower-case ASCII
/// letter or a digit is kept as it is, an upper-case ASCII letter becomes the
/// same letter in lower case, a space, `-` or `_` becomes `_`, and every other
/// character is dropped.
pub proof fn lemma_kept_char(c: char)
    ensures
        ('a' <= c && c <= 'z') || ('0' <= c && c <= '9') ==> kept_file_name_chars(seq![c]) == seq![c],
        'A' <= c && c <= 'Z' ==> kept_file_name_chars(seq![c]).len() == 1 && kept_file_name_chars(seq![c])[0] as u32
            == (c as u32) + 32,
        c == ' ' || c == '-' || c == '_' ==> kept_file_name_chars(seq![c]) == seq!['_'],
        !(('a' <= c && c <= 'z') || ('A' <= c && c <= 'Z') || ('0' <= c && c <= '9') || c == ' ' || c == '-' || c
            == '_') ==> kept_file_name_chars(seq![c]).len() == 0,
{
    let s = seq![c];
    assert(s.drop_last() =~= Seq::<char>::empty());
    assert(kept_file_name_chars(s.drop_last()) == Seq::<char>::empty());
    assert(s.last() == c);
    match file_name_char(c) {
        Some(k) => {
            assert(kept_file_name_chars(s) == Seq::<char>::empty().push(k));
            assert(Seq::<char>::empty().push(k) =~= seq![k]);
        },
        None => {},
    }
    if 'A' <= c && c <= 'Z' {
        assert(ascii_lower(c) == ((c as u32) + 32) as char);
        assert((((c as u32) + 32) as char) as u32 == (c as u32) + 32);
    }
}

/// A name of lower-case ASCII letters and digits only.
pub open spec fn is_plain_name(s: Seq<char>) -> bool {
    forall|i: int| 0 <= i < s.len() ==> ('a' <= #[trigger] s[i] && s[i] <= 'z') || ('0' <= s[i] && s[i] <= '9')
}

proof fn lemma_kept_plain(s: Seq<char>)
    requires
        is_plain_name(s),
    ensures
        kept_file_name_chars(s) == s,
    decreases s.len(),
{
    if s.len() > 0 {
        let t = s.drop_last();
        assert(is_plain_name(t)) by {
            assert forall|i: int| 0 <= i < t.len() implies ('a' <= #[trigger] t[i] && t[i] <= 'z') || ('0' <= t[i]
                && t[i] <= '9') by {
                assert(t[i] == s[i]);
            }
        }
        lemma_kept_plain(t);
        assert(('a' <= s[s.len() - 1] && s[s.len() - 1] <= 'z') || ('0' <= s[s.len() - 1] && s[s.len() - 1] <= '9'));
        assert(t.push(s.last()) =~= s);
    }
}

proof fn lemma_collapse_plain(s: Seq<char>)
    requires
        is_plain_name(s),
    ensures
        collapse_underscores(s) == s,
    decreases s.len(),
{
    if s.len() > 0 {
        let t = s.drop_last();
        assert(is_plain_name(t)) by {
            assert forall|i: int| 0 <= i < t.len() implies ('a' <= #[trigger] t[i] && t[i] <= 'z') || ('0' <= t[i]
                && t[i] <= '9') by {
                assert(t[i] == s[i]);
            }
        }
        lemma_collapse_plain(t);
        assert(('a' <= s[s.len() - 1] && s[s.len() - 1] <= 'z') || ('0' <= s[s.len() - 1] && s[s.len() - 1] <= '9'));
        assert(t.push(s.last()) =~= s);
    }
}

/// Law: a place name of lower-case ASCII letters and digits is its own file
/// stem, whatever its length, and the default file name is that name followed
/// by `_z`, the zoom label and `.jpg`.
pub proof fn lemma_plain_name_is_its_own_stem(place: Seq<char>, zoom_label: Seq<char>)
    requires
        place.len() > 0,
        is_plain_name(place),
    ensures
        place_file_stem(place) == place,
        default_file_name(place, zoom_label) == place + "_z"@ + zoom_label + ".jpg"@,
{
    lemma_kept_plain(place);
    lemma_collapse_plain(place);
    assert(place[0] != '_');
    assert(place[place.len() - 1] != '_');
}


/// The decimal digit character for `d` (below 10).
pub open spec fn digit_char(d: nat) -> char {
    if d == 0 {
        '0'
    } else if d == 1 {
        '1'
    } else if d == 2 {
        '2'
    } else if d == 3 {
        '3'
    } else if d == 4 {
        '4'
    } else if d == 5 {
        '5'
    } else if d == 6 {
        '6'
    } else if d == 7 {
        '7'
    } else if d == 8 {
        '8'
    } else {
        '9'
    }
}

/// How `v` is written in decimal: its digits, most significant first, without
/// leading zeros (`0` is written `0`).
pub open spec fn decimal_text(v: nat) -> Seq<char>
    decreases v,
{
    if v < 10 {
        seq![digit_char(v)]
    } else {
        decimal_text(v / 10).push(digit_char(v % 10))
    }
}

proof fn lemma_decimal_text_digits(v: nat)
    ensures
        decimal_text(v).len() > 0,
        forall|i: int| 0 <= i < decimal_text(v).len() ==> is_digit(#[trigger] decimal_text(v)[i]),
        digits_value(decimal_text(v)) == v,
    decreases v,
{
    let d = (v % 10) as nat;
    assert(d < 10);
    assert(is_digit(digit_char(d)));
    assert((digit_char(d) as int) - ('0' as int) == d);
    if v < 10 {
        let s = decimal_text(v);
        assert(s.drop_last() =~= Seq::<char>::empty());
        assert(digits_value(s.drop_last()) == 0);
    } else {
        lemma_decimal_text_digits(v / 10);
        let s = decimal_text(v);
        let p = decimal_text(v / 10);
        assert(s.drop_last() =~= p);
        assert forall|i: int| 0 <= i < s.len() implies is_digit(#[trigger] s[i]) by {
            if i < p.len() {
                assert(s[i] == p[i]);
            }
        }
        assert(v == (v / 10) * 10 + v % 10);
    }
}

/// Law: parsing reads back what decimal rendering writes. Every value up to
/// the type's largest value, written in decimal, parses to itself; a leading
/// `+` changes nothing.
pub proof fn lemma_parse_reads_decimal(v: nat, max: nat)
    requires
        v <= max,
    ensures
        parse_unsigned(decimal_text(v), max) == Some(v),
        parse_unsigned(seq!['+'] + decimal_text(v), max) == Some(v),
{
    lemma_decimal_text_digits(v);
    let s = decimal_text(v);
    assert(s[0] != '+');
    assert(unsigned_digits(s) == s);
    let t = seq!['+'] + s;
    assert(t.drop_first() =~= s);
    assert(unsigned_digits(t) == s);
}


/// Law: a value above the largest value of the type is refused, however it is
/// written in decimal.
pub proof fn lemma_parse_refuses_too_large(v: nat, max: nat)
    requires
        v > max,
    ensures
        parse_unsigned(decimal_text(v), max) is None,
        parse_unsigned(seq!['+'] + decimal_text(v), max) is None,
{
    lemma_decimal_text_digits(v);
    let s = decimal_text(v);
    assert(s[0] != '+');
    let t = seq!['+'] + s;
    assert(t.drop_first() =~= s);
}

/// Law: only a decimal literal is accepted: when parsing gives a value, the
/// text is an optional `+` followed by one or more ASCII digits.
pub proof fn lemma_parse_accepts_only_digits(s: Seq<char>, max: nat)
    requires
        parse_unsigned(s, max) is Some,
    ensures
        s.len() > 0,
        forall|i: int| 0 <= i < s.len() ==> is_digit(#[trigger] s[i]) || (i == 0 && s[i] == '+'),
        s[0] == '+' ==> s.len() > 1,
{
    let d = unsigned_digits(s);
    assert forall|i: int| 0 <= i < s.len() implies is_digit(#[trigger] s[i]) || (i == 0 && s[i] == '+') by {
        if s[0] == '+' {
            if i > 0 {
                assert(s[i] == d[i - 1]);
            }
        } else {
            assert(s[i] == d[i]);
        }
    }
}

} // verus!
