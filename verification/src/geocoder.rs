//! The Nominatim search request for a place and the choice of the place it
//! answers with.

use vstd::prelude::*;
use vstd::string::StringSliceAdditionalSpecFns;

verus! {

/// One result of a Nominatim search as it is sent: the coordinates are decimal text.
#[derive(Clone, Debug)]
pub struct NominatimPlace {
    pub lat: String,
    pub lon: String,
    pub display_name: String,
}

/// Why a search answer gives no place.
#[derive(Clone, Copy, Debug, PartialEq, Eq)]
pub enum GeocodeError {
    /// The answer lists no result.
    NoResults,
}

/// The first result of a search answer, which Nominatim ranks best; an answer
/// without results is refused.
pub fn first_place(places: Vec<NominatimPlace>) -> (r: Result<NominatimPlace, GeocodeError>)
    ensures
        places@.len() == 0 ==> r == Err::<NominatimPlace, GeocodeError>(GeocodeError::NoResults),
        places@.len() > 0 ==> r == Ok::<NominatimPlace, GeocodeError>(places@[0]),
{
    if places.len() == 0 {
        Err(GeocodeError::NoResults)
    } else {
        let mut places = places;
        Ok(places.remove(0))
    }
}


/// Bytes that `application/x-www-form-urlencoded` serialization keeps as they
/// are: ASCII letters, digits and `*`, `-`, `.`, `_`.
pub open spec fn form_unreserved(b: u8) -> bool {
    b == 0x2A || b == 0x2D || b == 0x2E || b == 0x5F || (0x30 <= b && b <= 0x39) || (0x41 <= b && b <= 0x5A) || (
    0x61 <= b && b <= 0x7A)
}

/// Upper-case hexadecimal digit of `n` (below 16).
pub open spec fn hex_digit(n: int) -> char {
    if n < 10 {
        (0x30 + n) as char
    } else {
        (0x41 + n - 10) as char
    }
}

/// How one byte is written in a form-urlencoded value: kept, `+` for a space,
/// else `%` and two upper-case hexadecimal digits.
pub open spec fn form_encoded_byte(b: u8) -> Seq<char> {
    if form_unreserved(b) {
        seq![b as char]
    } else if b == 0x20 {
        seq!['+']
    } else {
        seq!['%', hex_digit(b as int / 16), hex_digit(b as int % 16)]
    }
}

/// The form-urlencoded serialization of `bytes` (what the `form_urlencoded`
/// crate's `byte_serialize` yields, which `Url::query_pairs_mut` uses).
pub open spec fn form_urlencoded(bytes: Seq<u8>) -> Seq<char>
    decreases bytes.len(),
{
    if bytes.len() == 0 {
        Seq::empty()
    } else {
        form_urlencoded(bytes.drop_last()) + form_encoded_byte(bytes.last())
    }
}

/// The Nominatim search for a place: the place's UTF-8 bytes form-urlencoded as
/// the `q` parameter, JSON v2 output, one result, cities only.
pub open spec fn nominatim_search(place: &str) -> Seq<char> {
    "https://nominatim.openstreetmap.org/search?q="@ + form_urlencoded(place.spec_bytes())
        + "&format=jsonv2&limit=1&featureType=city"@
}

fn hex_digit_char(n: u8) -> (c: char)
    requires
        n < 16,
    ensures
        c == hex_digit(n as int),
{
    if n < 10 {
        (0x30u8 + n) as char
    } else {
        (0x41u8 + n - 10) as char
    }
}

/// Appends the form-urlencoded serialization of `bytes` to `out`.
fn append_form_urlencoded(out: &mut String, bytes: &[u8])
    ensures
        final(out)@ == old(out)@ + form_urlencoded(bytes@),
{
    let mut i: usize = 0;
    while i < bytes.len()
        invariant
            i <= bytes.len(),
            out@ == old(out)@ + form_urlencoded(bytes@.take(i as int)),
        decreases bytes.len() - i,
    {
        let b = bytes[i];
        let ghost before = out@;
        if b == 0x2A || b == 0x2D || b == 0x2E || b == 0x5F || (0x30 <= b && b <= 0x39) || (0x41 <= b
            && b <= 0x5A) || (0x61 <= b && b <= 0x7A) {
            out.push(b as char);
        } else if b == 0x20 {
            out.push('+');
        } else {
            out.push('%');
            out.push(hex_digit_char(b / 16));
            out.push(hex_digit_char(b % 16));
        }
        assert(out@ =~= before + form_encoded_byte(b));
        assert(bytes@.take(i + 1).drop_last() =~= bytes@.take(i as int));
        i = i + 1;
    }
    assert(bytes@.take(bytes.len() as int) =~= bytes@);
}

/// The URL of the Nominatim search for `place`.
pub fn nominatim_search_url(place: &str) -> (url: String)
    ensures
        url@ == nominatim_search(place),
{
    let mut url = String::from_str("https://nominatim.openstreetmap.org/search?q=");
    append_form_urlencoded(&mut url, place.as_bytes());
    url.append("&format=jsonv2&limit=1&featureType=city");
    url
}


/// The value of an upper-case hexadecimal digit, the kind the serializer
/// writes: `0`-`9`, then `A`-`F` for 10 to 15; any other character is none.
pub open spec fn hex_value(c: char) -> Option<int> {
    if '0' <= c && c <= '9' {
        Some(c as int - '0' as int)
    } else if 'A' <= c && c <= 'F' {
        Some(c as int - 'A' as int + 10)
    } else {
        None
    }
}

/// Decoding of a form-urlencoded value, read from the front: `+` is a space,
/// `%` and two hexadecimal digits are the byte they name, any other ASCII
/// character is its own byte. `None` for text that is not such a value.
pub open spec fn form_urldecoded(s: Seq<char>) -> Option<Seq<u8>>
    decreases s.len(),
{
    if s.len() == 0 {
        Some(Seq::empty())
    } else if s[0] == '%' {
        if s.len() >= 3 && hex_value(s[1]) is Some && hex_value(s[2]) is Some {
            match form_urldecoded(s.skip(3)) {
                Some(rest) => Some(seq![(hex_value(s[1]).unwrap() * 16 + hex_value(s[2]).unwrap()) as u8] + rest),
                None => None,
            }
        } else {
            None
        }
    } else if (s[0] as int) < 0x80 {
        match form_urldecoded(s.drop_first()) {
            Some(rest) => Some(seq![if s[0] == '+' { 0x20u8 } else { s[0] as u8 }] + rest),
            None => None,
        }
    } else {
        None
    }
}

proof fn lemma_form_urlencoded_front(bytes: Seq<u8>)
    requires
        bytes.len() > 0,
    ensures
        form_urlencoded(bytes) == form_encoded_byte(bytes[0]) + form_urlencoded(bytes.drop_first()),
    decreases bytes.len(),
{
    if bytes.len() == 1 {
        assert(bytes.drop_last() =~= Seq::<u8>::empty());
        assert(bytes.drop_first() =~= Seq::<u8>::empty());
        assert(form_urlencoded(bytes.drop_first()) == Seq::<char>::empty());
        assert(form_urlencoded(bytes.drop_last()) == Seq::<char>::empty());
        assert(form_encoded_byte(bytes[0]) + Seq::<char>::empty() =~= form_encoded_byte(bytes[0]));
        assert(Seq::<char>::empty() + form_encoded_byte(bytes.last()) =~= form_encoded_byte(bytes[0]));
    } else {
        let init = bytes.drop_last();
        lemma_form_urlencoded_front(init);
        assert(init.drop_first() =~= bytes.drop_first().drop_last());
        assert(bytes.drop_first().last() == bytes.last());
        assert(init[0] == bytes[0]);
        assert(form_encoded_byte(bytes[0]) + form_urlencoded(init.drop_first()) + form_encoded_byte(bytes.last())
            =~= form_encoded_byte(bytes[0]) + (form_urlencoded(init.drop_first()) + form_encoded_byte(bytes.last())));
    }
}

proof fn lemma_hex_digit_value(n: int)
    requires
        0 <= n < 16,
    ensures
        hex_value(hex_digit(n)) == Some(n),
{
    if n < 10 {
        assert(((0x30 + n) as char) as int == 0x30 + n);
    } else {
        assert(((0x41 + n - 10) as char) as int == 0x41 + n - 10);
    }
}

/// Law: form-urlencoding loses nothing: decoding the encoded text gives back
/// exactly the bytes that were encoded.
pub proof fn lemma_form_urlencoded_round_trip(bytes: Seq<u8>)
    ensures
        form_urldecoded(form_urlencoded(bytes)) == Some(bytes),
    decreases bytes.len(),
{
    if bytes.len() == 0 {
        assert(form_urlencoded(bytes) == Seq::<char>::empty());
    } else {
        let b = bytes[0];
        let rest = bytes.drop_first();
        lemma_form_urlencoded_front(bytes);
        lemma_form_urlencoded_round_trip(rest);
        let e = form_encoded_byte(b);
        let s = form_urlencoded(bytes);
        assert(s == e + form_urlencoded(rest));
        if form_unreserved(b) {
            assert((b as char) as int == b as int);
            assert(s[0] == b as char);
            assert(s.drop_first() =~= form_urlencoded(rest));
            assert(seq![b] + rest =~= bytes);
        } else if b == 0x20 {
            assert(s[0] == '+');
            assert(s.drop_first() =~= form_urlencoded(rest));
            assert(seq![0x20u8] + rest =~= bytes);
        } else {
            let hi = b as int / 16;
            let lo = b as int % 16;
            lemma_hex_digit_value(hi);
            lemma_hex_digit_value(lo);
            assert(s[0] == '%');
            assert(s[1] == hex_digit(hi));
            assert(s[2] == hex_digit(lo));
            assert(s.skip(3) =~= form_urlencoded(rest));
            assert((hi * 16 + lo) as u8 == b);
            assert(seq![b] + rest =~= bytes);
        }
    }
}

/// Law: the search URL carries the place unchanged: the `q` parameter, between
/// the fixed start of the URL and the `&` that follows it, decodes to exactly
/// the UTF-8 bytes of the place.
pub proof fn lemma_search_query_is_the_place(place: &str)
    ensures
        ({
            let url = nominatim_search(place);
            let start = "https://nominatim.openstreetmap.org/search?q="@.len() as int;
            let end = url.len() - "&format=jsonv2&limit=1&featureType=city"@.len();
            &&& url.subrange(0, start) == "https://nominatim.openstreetmap.org/search?q="@
            &&& form_urldecoded(url.subrange(start, end)) == Some(place.spec_bytes())
        }),
{
    let q = form_urlencoded(place.spec_bytes());
    let pre = "https://nominatim.openstreetmap.org/search?q="@;
    let post = "&format=jsonv2&limit=1&featureType=city"@;
    let url = nominatim_search(place);
    assert(url == pre + q + post);
    assert(url.subrange(0, pre.len() as int) =~= pre);
    assert(url.subrange(pre.len() as int, url.len() - post.len()) =~= q);
    lemma_form_urlencoded_round_trip(place.spec_bytes());
}


/// A character that may appear in a form-urlencoded value: an ASCII letter or
/// digit, or one of `*`, `-`, `.`, `_`, `+`, `%`.
pub open spec fn is_form_char(c: char) -> bool {
    ('0' <= c && c <= '9') || ('A' <= c && c <= 'Z') || ('a' <= c && c <= 'z') || c == '*' || c == '-' || c == '.'
        || c == '_' || c == '+' || c == '%'
}

/// Law: the encoded value holds only letters, digits and `*`, `-`, `.`, `_`,
/// `+`, `%`, so it never breaks out of the query parameter, whatever the bytes.
pub proof fn lemma_form_urlencoded_chars(bytes: Seq<u8>)
    ensures
        forall|i: int| 0 <= i < form_urlencoded(bytes).len() ==> is_form_char(#[trigger] form_urlencoded(bytes)[i]),
    decreases bytes.len(),
{
    if bytes.len() > 0 {
        lemma_form_urlencoded_chars(bytes.drop_last());
        let p = form_urlencoded(bytes.drop_last());
        let b = bytes.last();
        let e = form_encoded_byte(b);
        assert forall|j: int| 0 <= j < e.len() implies is_form_char(#[trigger] e[j]) by {
            if form_unreserved(b) {
                assert((b as char) as int == b as int);
            } else if b != 0x20 {
                let hi = b as int / 16;
                let lo = b as int % 16;
                lemma_hex_digit_value(hi);
                lemma_hex_digit_value(lo);
            }
        }
        let s = form_urlencoded(bytes);
        assert(s == p + e);
        assert forall|i: int| 0 <= i < s.len() implies is_form_char(#[trigger] s[i]) by {
            if i < p.len() {
                assert(s[i] == p[i]);
            } else {
                assert(s[i] == e[i - p.len()]);
            }
        }
    }
}

} // verus!
