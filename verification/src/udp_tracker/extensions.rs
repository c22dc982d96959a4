//! The announce trailer of protocol extensions: a run of options, each a
//! single no-op byte or a tagged, length-prefixed datum, closed by an
//! optional zero byte.

use vstd::prelude::*;
use vstd::utf8::{decode_utf8, valid_utf8};

verus! {

/// One protocol extension option.
#[derive(Debug, Eq, PartialEq)]
pub enum Extension {
    Nop,
    UrlData(String),
    Unknown(u8, String),
}

/// Abstract form of one option.
pub enum SpecExt {
    Nop,
    UrlData(Seq<char>),
    Unknown(u8, Seq<char>),
}

impl View for Extension {
    type V = SpecExt;

    open spec fn view(&self) -> SpecExt {
        match self {
            Extension::Nop => SpecExt::Nop,
            Extension::UrlData(s) => SpecExt::UrlData(s@),
            Extension::Unknown(t, s) => SpecExt::Unknown(*t, s@),
        }
    }
}

/// Abstract option sequence of a vector of extensions.
pub open spec fn view_exts(es: Seq<Extension>) -> Seq<SpecExt>
    decreases es,
{
    if es.len() == 0 {
        Seq::empty()
    } else {
        seq![es[0]@] + view_exts(es.drop_first())
    }
}

pub proof fn lemma_view_exts(es: Seq<Extension>)
    ensures
        view_exts(es).len() == es.len(),
        forall|i: int| 0 <= i < es.len() ==> view_exts(es)[i] == es[i]@,
    decreases es,
{
    if es.len() > 0 {
        lemma_view_exts(es.drop_first());
        assert(view_exts(es) == seq![es[0]@] + view_exts(es.drop_first()));
        assert forall|i: int| 0 <= i < es.len() implies view_exts(es)[i] == es[i]@ by {
            if i > 0 {
                assert(view_exts(es)[i] == view_exts(es.drop_first())[i - 1]);
                assert(es.drop_first()[i - 1] == es[i]);
            }
        }
    }
}

/// What the trailer means: the options it lists and how many bytes it
/// takes, or nothing when an option's datum is not UTF-8. A lone zero byte
/// closes the run; the run also stops, consuming nothing, at a byte that
/// opens no complete option.
pub open spec fn spec_exts(s: Seq<u8>) -> Option<(Seq<SpecExt>, int)>
    decreases s.len(),
{
    if s.len() == 0 {
        Some((Seq::empty(), 0))
    } else if s[0] == 1 {
        match spec_exts(s.drop_first()) {
            Some((r, n)) => Some((seq![SpecExt::Nop] + r, 1 + n)),
            None => None,
        }
    } else if s.len() >= 2 && 2 + s[1] <= s.len() {
        let data = s.subrange(2, 2 + s[1]);
        if valid_utf8(data) {
            let item = if s[0] == 2 {
                SpecExt::UrlData(decode_utf8(data))
            } else {
                SpecExt::Unknown(s[0], decode_utf8(data))
            };
            match spec_exts(s.skip(2 + s[1])) {
                Some((r, n)) => Some((seq![item] + r, 2 + s[1] + n)),
                None => None,
            }
        } else {
            None
        }
    } else if s[0] == 0 {
        Some((Seq::empty(), 1))
    } else {
        Some((Seq::empty(), 0))
    }
}

/// Relies on `core::str::from_utf8` and `str::to_owned`: the bytes decode
/// to exactly the returned string's characters, or fail for bytes that are
/// not UTF-8.
#[verifier::external_body]
pub(crate) fn utf8_to_string(bs: &[u8]) -> (r: Option<String>)
    ensures
        match r {
            Some(s) => valid_utf8(bs@) && s@ == decode_utf8(bs@),
            None => !valid_utf8(bs@),
        },
{
    match core::str::from_utf8(bs) {
        Ok(s) => Some(s.to_owned()),
        Err(_) => None,
    }
}

/// Reads the extension trailer of an announce: the options listed and the
/// bytes consumed, or an error for an option datum that is not UTF-8.
#[verifier::loop_isolation(false)]
pub fn parse_extensions(input: &[u8]) -> (r: Result<(Vec<Extension>, usize), ()>)
    ensures
        match r {
            Ok((exts, used)) => spec_exts(input@) == Some((view_exts(exts@), used as int)),
            Err(_) => spec_exts(input@) is None,
        },
{
    let mut out: Vec<Extension> = Vec::new();
    let mut pos: usize = 0;
    proof {
        assert(input@.skip(0) =~= input@);
        assert(view_exts(out@) =~= Seq::<SpecExt>::empty());
    }
    loop
        invariant
            pos <= input@.len(),
            match spec_exts(input@.skip(pos as int)) {
                Some((r2, n2)) => spec_exts(input@) == Some(
                    (view_exts(out@) + r2, pos + n2),
                ),
                None => spec_exts(input@) is None,
            },
        decreases input@.len() - pos,
    {
        let ghost cur = input@.skip(pos as int);
        if pos == input.len() {
            proof {
                assert(cur =~= Seq::<u8>::empty());
                assert(view_exts(out@) + Seq::<SpecExt>::empty() =~= view_exts(out@));
            }
            return Ok((out, pos));
        }
        let b = input[pos];
        proof {
            assert(cur[0] == b);
        }
        if b == 1 {
            let ghost pre = out@;
            out.push(Extension::Nop);
            proof {
                lemma_view_exts(pre);
                lemma_view_exts(out@);
                assert(out@.drop_last() =~= pre);
                assert(view_exts(out@) =~= view_exts(pre) + seq![SpecExt::Nop]);
                assert(cur.drop_first() =~= input@.skip(pos as int + 1));
                let r2 = spec_exts(input@.skip(pos as int + 1));
                if r2 is Some {
                    assert(view_exts(pre) + (seq![SpecExt::Nop] + r2.unwrap().0)
                        =~= view_exts(out@) + r2.unwrap().0);
                }
            }
            pos = pos + 1;
        } else if input.len() - pos >= 2 && (input[pos + 1] as usize) <= input.len() - pos
            - 2 {
            let dl = input[pos + 1] as usize;
            let data = vstd::slice::slice_subrange(input, pos + 2, pos + 2 + dl);
            proof {
                assert(cur.len() >= 2 && cur[1] == input@[pos as int + 1]);
                assert(data@ =~= cur.subrange(2, 2 + cur[1]));
            }
            let text = match utf8_to_string(data) {
                Some(t) => t,
                None => {
                    return Err(());
                },
            };
            let item = if b == 2 {
                Extension::UrlData(text)
            } else {
                Extension::Unknown(b, text)
            };
            let ghost item_g = item@;
            let ghost pre = out@;
            out.push(item);
            proof {
                lemma_view_exts(pre);
                lemma_view_exts(out@);
                assert(out@.drop_last() =~= pre);
                assert(view_exts(out@) =~= view_exts(pre) + seq![item_g]);
                assert(cur.skip(2 + cur[1]) =~= input@.skip(pos + 2 + dl));
                let r2 = spec_exts(input@.skip(pos + 2 + dl));
                if r2 is Some {
                    assert(view_exts(pre) + (seq![item_g] + r2.unwrap().0) =~= view_exts(out@)
                        + r2.unwrap().0);
                }
            }
            pos = pos + 2 + dl;
        } else if b == 0 {
            proof {
                assert(!(cur.len() >= 2 && 2 + cur[1] <= cur.len()));
                assert(view_exts(out@) + Seq::<SpecExt>::empty() =~= view_exts(out@));
            }
            return Ok((out, pos + 1));
        } else {
            proof {
                assert(!(cur.len() >= 2 && 2 + cur[1] <= cur.len()));
                assert(view_exts(out@) + Seq::<SpecExt>::empty() =~= view_exts(out@));
            }
            return Ok((out, pos));
        }
    }
}

} // verus!
