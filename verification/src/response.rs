//! The answer to a fraud check: the share of frauds among the five nearest references,
//! in fifths, and the approval that follows from it, as a JSON body.
use vstd::prelude::*;

verus! {

/// Largest number of frauds among the nearest references.
pub const MAX_FRAUD_NEIGHBORS: u8 = 5;

/// A transaction is approved while its fraud score, `fraud_neighbors / 5`, stays below
/// 0.6.
pub open spec fn spec_approved(fraud_neighbors: int) -> bool {
    fraud_neighbors < 3
}

/// The fraud score `fraud_neighbors / 5` written with one decimal.
pub open spec fn spec_score_text(fraud_neighbors: int) -> Seq<char> {
    if fraud_neighbors == 0 {
        "0.0"@
    } else if fraud_neighbors == 1 {
        "0.2"@
    } else if fraud_neighbors == 2 {
        "0.4"@
    } else if fraud_neighbors == 3 {
        "0.6"@
    } else if fraud_neighbors == 4 {
        "0.8"@
    } else {
        "1.0"@
    }
}

/// The JSON body of the answer for `fraud_neighbors` frauds among the nearest
/// references.
pub open spec fn spec_response_body(fraud_neighbors: int) -> Seq<char> {
    "{\"approved\":"@ + (if spec_approved(fraud_neighbors) {
        "true"@
    } else {
        "false"@
    }) + ",\"fraud_score\":"@ + spec_score_text(fraud_neighbors) + "}"@
}

/// The body of the answer for `fraud_neighbors` frauds, or nothing when there are more
/// than five.
pub fn fraud_response_body(fraud_neighbors: u8) -> (body: Option<&'static str>)
    ensures
        fraud_neighbors <= MAX_FRAUD_NEIGHBORS ==> (body matches Some(text) && text@
            == spec_response_body(fraud_neighbors as int)),
        fraud_neighbors > MAX_FRAUD_NEIGHBORS ==> body is None,
{
    if fraud_neighbors > MAX_FRAUD_NEIGHBORS {
        None
    } else {
        Some(response_bytes(fraud_neighbors))
    }
}

/// The body of the answer for `fraud_neighbors` frauds, where any count above five
/// answers as five.
pub fn response_bytes(fraud_neighbors: u8) -> (body: &'static str)
    ensures
        body@ == spec_response_body(
            if fraud_neighbors <= MAX_FRAUD_NEIGHBORS {
                fraud_neighbors as int
            } else {
                MAX_FRAUD_NEIGHBORS as int
            },
        ),
{
    proof {
        reveal_strlit("{\"approved\":");
        reveal_strlit("true");
        reveal_strlit("false");
        reveal_strlit(",\"fraud_score\":");
        reveal_strlit("0.0");
        reveal_strlit("0.2");
        reveal_strlit("0.4");
        reveal_strlit("0.6");
        reveal_strlit("0.8");
        reveal_strlit("1.0");
        reveal_strlit("}");
    }
    match fraud_neighbors {
        0 => {
            let body = "{\"approved\":true,\"fraud_score\":0.0}";
            proof {
                reveal_strlit("{\"approved\":true,\"fraud_score\":0.0}");
            }
            assert(body@ =~= spec_response_body(0));
            body
        },
        1 => {
            let body = "{\"approved\":true,\"fraud_score\":0.2}";
            proof {
                reveal_strlit("{\"approved\":true,\"fraud_score\":0.2}");
            }
            assert(body@ =~= spec_response_body(1));
            body
        },
        2 => {
            let body = "{\"approved\":true,\"fraud_score\":0.4}";
            proof {
                reveal_strlit("{\"approved\":true,\"fraud_score\":0.4}");
            }
            assert(body@ =~= spec_response_body(2));
            body
        },
        3 => {
            let body = "{\"approved\":false,\"fraud_score\":0.6}";
            proof {
                reveal_strlit("{\"approved\":false,\"fraud_score\":0.6}");
            }
            assert(body@ =~= spec_response_body(3));
            body
        },
        4 => {
            let body = "{\"approved\":false,\"fraud_score\":0.8}";
            proof {
                reveal_strlit("{\"approved\":false,\"fraud_score\":0.8}");
            }
            assert(body@ =~= spec_response_body(4));
            body
        },
        _ => {
            let body = "{\"approved\":false,\"fraud_score\":1.0}";
            proof {
                reveal_strlit("{\"approved\":false,\"fraud_score\":1.0}");
            }
            assert(body@ =~= spec_response_body(5));
            body
        },
    }
}

} // verus!
