//! Subscription URL construction.
//!
//! A combined-stream query names one stream per instrument: the
//! identifier lower-cased with the stream-type suffix appended, the
//! streams joined with `/`. The joined path becomes the query value of
//! the fixed combined-stream endpoint.

use vstd::prelude::*;
use vstd::string::*;
use crate::engine::strs_view;

verus! {

/// What `str::to_lowercase` returns for a text.
pub uninterp spec fn lower_of(s: Seq<char>) -> Seq<char>;

/// Relies on str::to_lowercase: the result depends on the characters
/// alone.
#[verifier::external_body]
fn lowercase(s: &str) -> (r: String)
    ensures
        r@ == lower_of(s@),
{
    s.to_lowercase()
}

/// The stream name of one instrument.
pub open spec fn stream_of(sym: Seq<char>) -> Seq<char> {
    lower_of(sym) + "@bookTicker"@
}

/// The combined query: stream names joined with `/`.
pub open spec fn streams_path(syms: Seq<Seq<char>>) -> Seq<char>
    decreases syms.len(),
{
    if syms.len() == 0 {
        Seq::empty()
    } else if syms.len() == 1 {
        stream_of(syms[0])
    } else {
        streams_path(syms.drop_last()) + "/"@ + stream_of(syms.last())
    }
}

/// The combined-stream endpoint, up to the query value.
pub open spec fn base_url() -> Seq<char> {
    "wss://fstream.binance.com/stream?streams="@
}

/// Build the combined-stream subscription URL for the given
/// instruments.
pub fn build_stream_url(symbols: &Vec<String>) -> (r: String)
    requires
        symbols@.len() > 0,
    ensures
        r@ == base_url() + streams_path(strs_view(symbols@)),
{
    let ghost sv = strs_view(symbols@);
    let mut url = String::from_str("wss://fstream.binance.com/stream?streams=");
    let mut i: usize = 0;
    while i < symbols.len()
        invariant
            sv == strs_view(symbols@),
            sv.len() == symbols@.len(),
            0 <= i <= symbols@.len(),
            i == 0 ==> url@ == base_url(),
            i > 0 ==> url@ == base_url() + streams_path(sv.take(i as int)),
        decreases symbols@.len() - i,
    {
        if i > 0 {
            url.append("/");
        }
        let low = lowercase(symbols[i].as_str());
        url.append(low.as_str());
        url.append("@bookTicker");
        proof {
            assert(sv[i as int] == symbols@[i as int]@);
            if i == 0 {
                assert(sv.take(1)[0] == sv[0]);
            } else {
                assert(sv.take(i as int + 1).drop_last() =~= sv.take(i as int));
                assert(sv.take(i as int + 1).last() == sv[i as int]);
            }
            assert(url@ =~= base_url() + streams_path(sv.take(i as int + 1)));
        }
        i = i + 1;
    }
    proof {
        assert(sv.take(sv.len() as int) =~= sv);
    }
    url
}

} // verus!
