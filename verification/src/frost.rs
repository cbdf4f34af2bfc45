use vstd::prelude::*;
use vstd::string::StringSliceAdditionalSpecFns;

use crate::ualf::{first_byte, line_record, UalfData};

verus! {

/// Failures of one fetch cycle: a transport failure, or an API-level error
/// payload, each carrying its message. Both are non-fatal to the process.
#[derive(Debug)]
pub enum FrostError {
    RequestError(String),
    ApiError(String),
}

/// The records named by the response body's nonempty lines, in order; lines
/// that name no record are dropped.
pub open spec fn ualf_records(b: Seq<u8>) -> Seq<UalfData>
    decreases b.len(),
        when true
        via ualf_records_decreases
{
    let i = first_byte(b, 10);
    let head: Seq<UalfData> = if i > 0 {
        match line_record(b.take(i)) {
            Some(u) => seq![u],
            None => Seq::empty(),
        }
    } else {
        Seq::empty()
    };
    if i >= b.len() {
        head
    } else {
        head + ualf_records(b.skip(i + 1))
    }
}

#[via_fn]
proof fn ualf_records_decreases(b: Seq<u8>) {
    crate::ualf::lemma_first_byte(b, 10);
}

/// The compute half of one fetch cycle: decide whether the response body is
/// an API error payload (it opens with `{`) and otherwise decode every
/// nonempty line into a strike record, skipping lines that decode to
/// nothing.
#[verifier::loop_isolation(false)]
pub fn parse_ualf_response(ualf_text_data: &str) -> (r: Result<Vec<UalfData>, FrostError>)
    ensures
        ({
            let b = ualf_text_data.spec_bytes();
            if b.len() > 0 && b[0] == 123 {
                match r {
                    Err(FrostError::ApiError(msg)) => msg@ == ualf_text_data@,
                    _ => false,
                }
            } else {
                match r {
                    Ok(v) => v@ == ualf_records(b),
                    _ => false,
                }
            }
        }),
{
    let bytes: &[u8] = ualf_text_data.as_bytes();
    let n = bytes.len();
    if n > 0 && bytes[0] == 123 {
        return Err(FrostError::ApiError(ualf_text_data.to_owned()));
    }
    let ghost target = ualf_records(bytes@);
    let mut observations: Vec<UalfData> = Vec::new();
    let mut pos: usize = 0;
    let mut finished = false;
    proof {
        assert(bytes@.skip(0) =~= bytes@);
        assert(observations@ + ualf_records(bytes@) =~= ualf_records(bytes@));
    }
    while !finished
        invariant
            pos <= n,
            finished ==> observations@ == target,
            !finished ==> observations@ + ualf_records(bytes@.skip(pos as int)) == target,
        decreases n - pos + (if finished { 0int } else { 1int }),
    {
        let ghost suffix = bytes@.skip(pos as int);
        let mut nl = pos;
        let mut nl_found = false;
        while !nl_found && nl < n
            invariant
                pos <= nl <= n,
                forall|k: int| pos <= k < nl ==> bytes@[k] != 10,
                nl_found ==> nl < n && bytes@[nl as int] == 10,
            decreases n - nl + (if nl_found { 0int } else { 1int }),
        {
            if bytes[nl] == 10 {
                nl_found = true;
            } else {
                nl = nl + 1;
            }
        }
        let ghost i = nl - pos as int;
        proof {
            assert forall|k: int| 0 <= k < i implies suffix[k] != 10 by {
                assert(suffix[k] == bytes@[k + pos]);
            }
            if nl_found {
                assert(suffix[i] == bytes@[nl as int]);
            }
            crate::ualf::lemma_first_byte_is(suffix, 10, i);
            assert(suffix.take(i) =~= bytes@.subrange(pos as int, nl as int));
        }
        let ghost pre = observations@;
        if nl > pos {
            let line = &bytes[pos..nl];
            match UalfData::from_bytes(line) {
                Some(obs) => {
                    observations.push(obs);
                },
                None => {},
            }
        }
        proof {
            let head: Seq<UalfData> = if i > 0 {
                match line_record(suffix.take(i)) {
                    Some(u) => seq![u],
                    None => Seq::empty(),
                }
            } else {
                Seq::empty()
            };
            assert(observations@ =~= pre + head);
        }
        if nl_found {
            pos = nl + 1;
            proof {
                assert(i < suffix.len());
                assert(suffix.skip(i + 1) =~= bytes@.skip(pos as int));
                let head: Seq<UalfData> = if i > 0 {
                    match line_record(suffix.take(i)) {
                        Some(u) => seq![u],
                        None => Seq::empty(),
                    }
                } else {
                    Seq::empty()
                };
                assert(pre + head + ualf_records(bytes@.skip(pos as int)) =~= pre + (head
                    + ualf_records(suffix.skip(i + 1))));
            }
        } else {
            finished = true;
            proof {
                assert(i == suffix.len());
            }
        }
    }
    Ok(observations)
}

} // verus!
