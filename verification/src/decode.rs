//! Decoding of raw byte content into record values.
//!
//! Text content is trimmed of leading/trailing XML whitespace and then
//! entity-unescaped; an undecodable text value is fatal.  Attribute values
//! are entity-unescaped too, but on failure fall back to a lossy decoding
//! of the raw bytes with a literal `&amp;` -> `&` substitution, so that no
//! attribute data is ever dropped.
use vstd::prelude::*;

verus! {

/// The four byte values that count as XML whitespace: space, tab,
/// carriage return, line feed.
pub open spec fn is_xml_ws(b: u8) -> bool {
    b == 32 || b == 9 || b == 13 || b == 10
}

/// Leading XML whitespace removed.
pub open spec fn trim_start_spec(s: Seq<u8>) -> Seq<u8>
    decreases s.len(),
{
    if s.len() == 0 {
        s
    } else if is_xml_ws(s[0]) {
        trim_start_spec(s.drop_first())
    } else {
        s
    }
}

/// Trailing XML whitespace removed.
pub open spec fn trim_end_spec(s: Seq<u8>) -> Seq<u8>
    decreases s.len(),
{
    if s.len() == 0 {
        s
    } else if is_xml_ws(s.last()) {
        trim_end_spec(s.drop_last())
    } else {
        s
    }
}

/// Leading and trailing XML whitespace removed.
pub open spec fn trim_spec(s: Seq<u8>) -> Seq<u8> {
    trim_start_spec(trim_end_spec(s))
}

proof fn lemma_trim_end_range(s: Seq<u8>, hi: int)
    requires
        0 <= hi <= s.len(),
        forall|j: int| hi <= j < s.len() ==> is_xml_ws(s[j]),
        hi > 0 ==> !is_xml_ws(s[hi - 1]),
    ensures
        trim_end_spec(s) == s.subrange(0, hi),
    decreases s.len(),
{
    if s.len() == 0 {
        assert(trim_end_spec(s) =~= s.subrange(0, hi));
    } else if hi == s.len() {
        assert(!is_xml_ws(s.last()));
        assert(trim_end_spec(s) =~= s.subrange(0, hi));
    } else {
        assert(is_xml_ws(s.last()));
        let t = s.drop_last();
        assert(forall|j: int| hi <= j < t.len() ==> is_xml_ws(t[j]));
        lemma_trim_end_range(t, hi);
        assert(t.subrange(0, hi) =~= s.subrange(0, hi));
    }
}

proof fn lemma_trim_start_range(s: Seq<u8>, lo: int)
    requires
        0 <= lo <= s.len(),
        forall|j: int| 0 <= j < lo ==> is_xml_ws(s[j]),
        lo < s.len() ==> !is_xml_ws(s[lo]),
    ensures
        trim_start_spec(s) == s.subrange(lo, s.len() as int),
    decreases s.len(),
{
    if s.len() == 0 {
        assert(trim_start_spec(s) =~= s.subrange(lo, s.len() as int));
    } else if lo == 0 {
        assert(trim_start_spec(s) =~= s.subrange(lo, s.len() as int));
    } else {
        assert(is_xml_ws(s[0]));
        let t = s.drop_first();
        assert(forall|j: int| 0 <= j < lo - 1 ==> is_xml_ws(t[j]));
        lemma_trim_start_range(t, lo - 1);
        assert(t.subrange(lo - 1, t.len() as int) =~= s.subrange(lo, s.len() as int));
    }
}

/// Removes leading and trailing XML whitespace from `s`.
pub fn trim_xml_ws(s: &[u8]) -> (r: Vec<u8>)
    ensures
        r@ == trim_spec(s@),
{
    let mut hi: usize = s.len();
    while hi > 0 && (s[hi - 1] == 32 || s[hi - 1] == 9 || s[hi - 1] == 13 || s[hi - 1] == 10)
        invariant
            hi <= s@.len(),
            forall|j: int| hi <= j < s@.len() ==> is_xml_ws(s@[j]),
        decreases hi,
    {
        hi = hi - 1;
    }
    proof {
        lemma_trim_end_range(s@, hi as int);
    }
    let mut lo: usize = 0;
    while lo < hi && (s[lo] == 32 || s[lo] == 9 || s[lo] == 13 || s[lo] == 10)
        invariant
            lo <= hi <= s@.len(),
            forall|j: int| 0 <= j < lo ==> is_xml_ws(s@[j]),
        decreases hi - lo,
    {
        lo = lo + 1;
    }
    let ghost e = trim_end_spec(s@);
    proof {
        assert(forall|j: int| 0 <= j < lo ==> is_xml_ws(e[j]));
        assert(lo < e.len() ==> !is_xml_ws(e[lo as int]));
        lemma_trim_start_range(e, lo as int);
    }
    let mut r: Vec<u8> = Vec::new();
    let mut i: usize = lo;
    while i < hi
        invariant
            lo <= i <= hi <= s@.len(),
            r@ =~= s@.subrange(lo as int, i as int),
        decreases hi - i,
    {
        r.push(s[i]);
        i = i + 1;
    }
    proof {
        assert(r@ =~= e.subrange(lo as int, e.len() as int));
    }
    r
}

/// The five bytes of the literal entity `&amp;`.
pub open spec fn amp_entity() -> Seq<u8> {
    seq![38u8, 97u8, 109u8, 112u8, 59u8]
}

/// Every occurrence of the literal bytes `&amp;` replaced by a single `&`,
/// scanning left to right.
pub open spec fn replace_amp_spec(s: Seq<u8>) -> Seq<u8>
    decreases s.len(),
{
    if s.len() == 0 {
        s
    } else if s.len() >= 5 && s.subrange(0, 5) == amp_entity() {
        seq![38u8] + replace_amp_spec(s.skip(5))
    } else {
        seq![s[0]] + replace_amp_spec(s.skip(1))
    }
}

/// Replaces every literal `&amp;` in `s` by `&`.
pub fn replace_amp(s: &[u8]) -> (r: Vec<u8>)
    ensures
        r@ == replace_amp_spec(s@),
{
    let mut r: Vec<u8> = Vec::new();
    let mut i: usize = 0;
    proof {
        assert(s@.skip(0) =~= s@);
        assert(r@ + replace_amp_spec(s@) =~= replace_amp_spec(s@));
    }
    while i < s.len()
        invariant
            i <= s@.len(),
            replace_amp_spec(s@) == r@ + replace_amp_spec(s@.skip(i as int)),
        decreases s@.len() - i,
    {
        let ghost rest = s@.skip(i as int);
        let ghost r0 = r@;
        if s.len() - i >= 5 && s[i] == 38 && s[i + 1] == 97 && s[i + 2] == 109 && s[i + 3] == 112
            && s[i + 4] == 59 {
            proof {
                assert(rest.subrange(0, 5) =~= amp_entity());
                assert(rest.skip(5) =~= s@.skip(i + 5));
                assert(replace_amp_spec(rest) == seq![38u8] + replace_amp_spec(s@.skip(i + 5)));
            }
            r.push(38);
            proof {
                assert(r@ + replace_amp_spec(s@.skip(i + 5)) =~= r0 + replace_amp_spec(rest)) by {
                    assert(r@ =~= r0 + seq![38u8]);
                }
            }
            i = i + 5;
        } else {
            proof {
                assert(rest.len() >= 1);
                assert(!(rest.len() >= 5 && rest.subrange(0, 5) == amp_entity())) by {
                    if rest.len() >= 5 && rest.subrange(0, 5) == amp_entity() {
                        assert(rest[0] == 38 && rest[1] == 97 && rest[2] == 109 && rest[3] == 112
                            && rest[4] == 59);
                    }
                }
                assert(rest.skip(1) =~= s@.skip(i + 1));
                assert(replace_amp_spec(rest) == seq![rest[0]] + replace_amp_spec(s@.skip(i + 1)));
            }
            let b = s[i];
            r.push(b);
            proof {
                assert(r@ + replace_amp_spec(s@.skip(i + 1)) =~= r0 + replace_amp_spec(rest)) by {
                    assert(r@ =~= r0 + seq![rest[0]]);
                }
            }
            i = i + 1;
        }
    }
    proof {
        assert(s@.skip(i as int) =~= Seq::<u8>::empty());
        assert(replace_amp_spec(s@) =~= r@);
    }
    r
}

/// What `String::from_utf8_lossy` returns for a byte sequence: a function
/// of the bytes alone.
pub uninterp spec fn lossy_of(s: Seq<u8>) -> Seq<char>;

/// Relies on std's `String::from_utf8_lossy`: best-effort text decoding,
/// where invalid UTF-8 sequences are replaced, never rejected.  The result
/// depends on the bytes alone.
#[verifier::external_body]
pub fn utf8_lossy(b: &[u8]) -> (r: String)
    ensures
        r@ == lossy_of(b@),
{
    String::from_utf8_lossy(b).into_owned()
}

/// What XML entity unescaping returns for a byte sequence: `None` when the
/// bytes are not valid UTF-8 or hold an invalid entity, otherwise the
/// decoded characters.  A function of the bytes alone.
pub uninterp spec fn unescape_of(s: Seq<u8>) -> Option<Seq<char>>;

/// Relies on `quick_xml::escape::unescape` applied to the UTF-8 decoding of
/// the bytes, exactly as quick_xml's own `BytesText::unescape` and
/// `Attribute::unescape_value` do: entities such as `&gt;` are replaced by
/// the characters they stand for, and an invalid entity or invalid UTF-8 is
/// an error.  The result depends on the bytes alone.
#[verifier::external_body]
pub fn unescape_bytes(b: &[u8]) -> (r: Option<String>)
    ensures
        r is Some <==> unescape_of(b@) is Some,
        r matches Some(s) ==> unescape_of(b@) == Some(s@),
{
    match core::str::from_utf8(b) {
        Ok(s) => match quick_xml::escape::unescape(s) {
            Ok(c) => Some(c.into_owned()),
            Err(_) => None,
        },
        Err(_) => None,
    }
}

/// The decoded value of an attribute: standard entity unescaping where that
/// succeeds, else the lossy decoding of the raw bytes with every literal
/// `&amp;` replaced by `&`.  Never an error: attribute data is never dropped.
pub open spec fn attr_value_spec(raw: Seq<u8>) -> Seq<char> {
    match unescape_of(raw) {
        Some(s) => s,
        None => lossy_of(replace_amp_spec(raw)),
    }
}

/// Decodes an attribute value, falling back to the raw bytes with a literal
/// `&amp;` -> `&` substitution when standard unescaping fails.
pub fn decode_attr_value(raw: &[u8]) -> (r: String)
    ensures
        r@ == attr_value_spec(raw@),
{
    match unescape_bytes(raw) {
        Some(s) => s,
        None => {
            let rep = replace_amp(raw);
            utf8_lossy(rep.as_slice())
        },
    }
}

} // verus!
