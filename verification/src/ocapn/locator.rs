use super::types::{hex_slicing_fails, hex_text, lemma_hex_roundtrip, swiss_bytes, swiss_from_hex_spec, SwissNum};
use crate::text::{
    chars_of, find_char, first_index_of, last_index_of, lemma_first_index, lemma_last_index, lemma_no_index,
    push_str, rfind_char, string_of,
};
use vstd::prelude::*;
use vstd::string::StringSliceAdditionalSpecFns;
use vstd::utf8::encode_utf8;

verus! {

/// An OCapN locator: `ocapn://<designator>.<transport>[/s/<swiss-hex>]`.
#[derive(Debug, Clone, PartialEq)]
pub struct OCapNLocator {
    pub designator: String,
    pub transport: String,
    pub swiss_num: Option<SwissNum>,
}

/// Model of a locator: designator, transport and the bytes of the Swiss number.
pub type LocatorModel = (Seq<char>, Seq<char>, Option<Seq<u8>>);

impl View for OCapNLocator {
    type V = LocatorModel;

    open spec fn view(&self) -> LocatorModel {
        (self.designator@, self.transport@, swiss_bytes(self.swiss_num))
    }
}

/// After `ocapn://`, the designator, the transport and the path of a locator
/// text, when the scheme is right and the authority `designator.transport` has
/// both parts (split at its last `.`; the authority ends at the first `/`).
pub open spec fn locator_parts(u: Seq<char>) -> Option<(Seq<char>, Seq<char>, Seq<char>)> {
    if u.len() < 8 || u.take(8) != "ocapn://"@ {
        None
    } else {
        let rest = u.skip(8);
        let auth = match first_index_of(rest, '/') {
            Some(i) => rest.take(i),
            None => rest,
        };
        let path = match first_index_of(rest, '/') {
            Some(i) => rest.skip(i),
            None => Seq::empty(),
        };
        match last_index_of(auth, '.') {
            None => None,
            Some(d) => if d == 0 || d + 1 == auth.len() {
                None
            } else {
                Some((auth.take(d), auth.skip(d + 1), path))
            },
        }
    }
}

/// A path `/s/<text>` carries the Swiss-number text `<text>`.
pub open spec fn swiss_text(path: Seq<char>) -> Option<Seq<char>> {
    if path.len() >= 3 && path.take(3) == "/s/"@ {
        Some(path.skip(3))
    } else {
        None
    }
}

/// The locator that a text denotes, if any.
pub open spec fn parse_locator(u: Seq<char>) -> Option<LocatorModel> {
    match locator_parts(u) {
        None => None,
        Some((d, t, path)) => Some(
            (
                d,
                t,
                match swiss_text(path) {
                    Some(h) => swiss_from_hex_spec(encode_utf8(h)),
                    None => None,
                },
            ),
        ),
    }
}

/// Parsing the text would slice its Swiss-number text off character boundaries.
pub open spec fn locator_slicing_fails(u: Seq<char>) -> bool {
    match locator_parts(u) {
        Some((_, _, path)) => match swiss_text(path) {
            Some(h) => encode_utf8(h).len() == 32 && hex_slicing_fails(encode_utf8(h)),
            None => false,
        },
        None => false,
    }
}

/// The text of a locator.
pub open spec fn locator_text(m: LocatorModel) -> Seq<char> {
    let base = "ocapn://"@ + m.0 + seq!['.'] + m.1;
    match m.2 {
        Some(b) => base + "/s/"@ + hex_text(b),
        None => base,
    }
}

fn matches_at(u: &[char], start: usize, lit: &str) -> (r: bool)
    requires
        start <= u@.len(),
    ensures
        r == (start + lit@.len() <= u@.len() && u@.subrange(start as int, start + lit@.len()) == lit@),
{
    let l = chars_of(lit);
    if l.len() > u.len() - start {
        return false;
    }
    let mut i: usize = 0;
    while i < l.len()
        invariant
            i <= l@.len(),
            l@ == lit@,
            start + l@.len() <= u@.len(),
            u@.len() == u.len(),
            forall|j: int| 0 <= j < i ==> u@[start + j] == l@[j],
        decreases l@.len() - i,
    {
        if u[start + i] != l[i] {
            assert(u@.subrange(start as int, start + lit@.len())[i as int] != lit@[i as int]);
            return false;
        }
        i = i + 1;
    }
    assert(u@.subrange(start as int, start + lit@.len()) =~= lit@);
    true
}

impl OCapNLocator {
    /// Parse a locator text.
    pub fn parse(uri: &str) -> (r: Option<OCapNLocator>)
        requires
            !locator_slicing_fails(uri@),
        ensures
            match r {
                Some(loc) => parse_locator(uri@) == Some(loc@),
                None => parse_locator(uri@) is None,
            },
    {
        let u = chars_of(uri);
        let us = u.as_slice();
        if !matches_at(us, 0, "ocapn://") {
            proof {
                reveal_strlit("ocapn://");
                if u@.len() >= 8 {
                    assert(u@.subrange(0, 8) =~= u@.take(8));
                }
            }
            return None;
        }
        proof {
            reveal_strlit("ocapn://");
            assert(u@.subrange(0, 8) =~= u@.take(8));
        }
        let rest = &us[8..us.len()];
        assert(rest@ =~= uri@.skip(8));
        let slash = find_char(rest, '/');
        let (auth, path) = match slash {
            Some(i) => (&rest[0..i], &rest[i..rest.len()]),
            None => (rest, &rest[rest.len()..rest.len()]),
        };
        proof {
            match slash {
                Some(i) => {
                    assert(auth@ =~= rest@.take(i as int));
                    assert(path@ =~= rest@.skip(i as int));
                },
                None => {
                    assert(auth@ =~= rest@);
                    assert(path@ =~= Seq::<char>::empty());
                },
            }
        }
        let d = match rfind_char(auth, '.') {
            Some(d) => d,
            None => {
                return None;
            },
        };
        if d == 0 || d + 1 == auth.len() {
            return None;
        }
        let des = &auth[0..d];
        let tr = &auth[d + 1..auth.len()];
        assert(des@ =~= auth@.take(d as int));
        assert(tr@ =~= auth@.skip(d + 1));
        let designator = string_of(des);
        let transport = string_of(tr);
        let swiss_num = if matches_at(path, 0, "/s/") {
            proof {
                reveal_strlit("/s/");
                assert(path@.subrange(0, 3) =~= path@.take(3));
            }
            let hex_chars = &path[3..path.len()];
            assert(hex_chars@ =~= path@.skip(3));
            let hex = string_of(hex_chars);
            SwissNum::from_hex(hex.as_str())
        } else {
            proof {
                reveal_strlit("/s/");
                if path@.len() >= 3 {
                    assert(path@.subrange(0, 3) =~= path@.take(3));
                }
            }
            None
        };
        Some(OCapNLocator { designator, transport, swiss_num })
    }

    /// The locator as text.
    pub fn to_uri(&self) -> (r: String)
        ensures
            r@ == locator_text(self@),
    {
        let mut out = String::new();
        push_str(&mut out, "ocapn://");
        push_str(&mut out, self.designator.as_str());
        push_str(&mut out, ".");
        push_str(&mut out, self.transport.as_str());
        proof {
            reveal_strlit(".");
            assert(out@ =~= "ocapn://"@ + self.designator@ + seq!['.'] + self.transport@);
        }
        match &self.swiss_num {
            Some(sn) => {
                push_str(&mut out, "/s/");
                let hex = sn.to_hex();
                push_str(&mut out, hex.as_str());
            },
            None => {},
        }
        out
    }
}

/// Locator round trip: parsing the text of a locator gives the locator back,
/// when the designator and transport are non-empty, neither holds `/`, the
/// transport holds no `.`, and a Swiss number has its 16 bytes. (The
/// designator may hold `.`: the authority splits at its last `.`.)
pub proof fn lemma_locator_roundtrip(m: LocatorModel)
    requires
        m.0.len() > 0,
        m.1.len() > 0,
        !m.0.contains('/'),
        !m.1.contains('/'),
        !m.1.contains('.'),
        m.2 matches Some(b) ==> b.len() == 16,
    ensures
        !locator_slicing_fails(locator_text(m)),
        parse_locator(locator_text(m)) == Some(m),
{
    reveal_strlit("ocapn://");
    reveal_strlit("/s/");
    let u = locator_text(m);
    let auth = m.0 + seq!['.'] + m.1;
    assert(u.take(8) =~= "ocapn://"@);
    let rest = u.skip(8);
    assert forall|j: int| 0 <= j < auth.len() implies auth[j] != '/' by {
        if j < m.0.len() {
            assert(auth[j] == m.0[j]);
        } else if j > m.0.len() {
            assert(auth[j] == m.1[j - m.0.len() - 1]);
        }
    }
    assert(is_last_index_witness(auth, m.0.len() as int)) by {
        assert forall|j: int| m.0.len() < j < auth.len() implies auth[j] != '.' by {
            assert(auth[j] == m.1[j - m.0.len() - 1]);
        }
    }
    lemma_last_index(auth, '.', m.0.len() as int);
    assert(auth.take(m.0.len() as int) =~= m.0);
    assert(auth.skip((m.0.len() + 1) as int) =~= m.1);
    match m.2 {
        Some(b) => {
            let path = "/s/"@ + hex_text(b);
            assert(rest =~= auth + path);
            lemma_first_index(rest, '/', auth.len() as int);
            assert(rest.take(auth.len() as int) =~= auth);
            assert(rest.skip(auth.len() as int) =~= path);
            assert(path.take(3) =~= "/s/"@);
            assert(path.skip(3) =~= hex_text(b));
            lemma_hex_roundtrip(b);
        },
        None => {
            assert(rest =~= auth);
            lemma_no_index(rest, '/');
        },
    }
}

spec fn is_last_index_witness(s: Seq<char>, i: int) -> bool {
    crate::text::is_last_index(s, '.', i)
}

} // verus!
