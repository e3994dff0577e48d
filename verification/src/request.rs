//! Construction of the raw request bytes of the wire protocol: a GET of
//! the resource root with a `Host` header, an optional `Range` header for
//! chunk requests, and non-persistent (`Connection: close`) semantics.

use vstd::prelude::*;
use vstd::string::StringSliceAdditionalSpecFns;

verus! {

/// The ASCII decimal numeral of a non-negative number, most significant
/// digit first, without leading zeros.
pub open spec fn dec_digits(n: int) -> Seq<u8>
    recommends
        n >= 0,
    decreases n,
{
    if n < 10 {
        seq![(48 + n) as u8]
    } else {
        dec_digits(n / 10).push((48 + (n % 10)) as u8)
    }
}

/// Render a number as its ASCII decimal numeral.
pub fn format_dec(n: usize) -> (r: Vec<u8>)
    ensures
        r@ == dec_digits(n as int),
    decreases n,
{
    if n < 10 {
        let mut v: Vec<u8> = Vec::new();
        v.push(48 + n as u8);
        proof {
            assert(v@ =~= dec_digits(n as int));
        }
        v
    } else {
        let mut v = format_dec(n / 10);
        v.push(48 + (n % 10) as u8);
        v
    }
}

/// The opening of every request: the GET line and the `Host` header.
pub open spec fn request_prefix(host: Seq<u8>) -> Seq<u8> {
    seq![71u8, 69u8, 84u8, 32u8, 47u8, 32u8, 72u8, 84u8, 84u8, 80u8, 47u8, 49u8, 46u8, 49u8, 13u8, 10u8, 72u8, 111u8, 115u8, 116u8, 58u8, 32u8] + host + seq![13u8, 10u8]
}

/// The `Range` header of a chunk request for `[start, end)`.
pub open spec fn range_header(start: int, end: int) -> Seq<u8> {
    seq![82u8, 97u8, 110u8, 103u8, 101u8, 58u8, 32u8, 98u8, 121u8, 116u8, 101u8, 115u8, 61u8] + dec_digits(start) + seq![45u8] + dec_digits(end) + seq![13u8, 10u8]
}

/// The closing of every request: the `Connection: close` header and the
/// blank line that ends the header block.
pub open spec fn request_suffix() -> Seq<u8> {
    seq![67u8, 111u8, 110u8, 110u8, 101u8, 99u8, 116u8, 105u8, 111u8, 110u8, 58u8, 32u8, 99u8, 108u8, 111u8, 115u8, 101u8, 13u8, 10u8, 13u8, 10u8]
}

/// The full raw request for a host, ranged when a byte range is given.
pub open spec fn request_bytes(host: Seq<u8>, range: Option<(int, int)>) -> Seq<u8> {
    match range {
        None => request_prefix(host) + request_suffix(),
        Some(r) => request_prefix(host) + range_header(r.0, r.1) + request_suffix(),
    }
}

/// The GET line and the start of the `Host` header, as bytes.
fn prefix_vec() -> (r: Vec<u8>)
    ensures
        r@ == seq![71u8, 69u8, 84u8, 32u8, 47u8, 32u8, 72u8, 84u8, 84u8, 80u8, 47u8, 49u8, 46u8, 49u8, 13u8, 10u8, 72u8, 111u8, 115u8, 116u8, 58u8, 32u8],
{
    let mut v: Vec<u8> = Vec::new();
    v.push(71);
    v.push(69);
    v.push(84);
    v.push(32);
    v.push(47);
    v.push(32);
    v.push(72);
    v.push(84);
    v.push(84);
    v.push(80);
    v.push(47);
    v.push(49);
    v.push(46);
    v.push(49);
    v.push(13);
    v.push(10);
    v.push(72);
    v.push(111);
    v.push(115);
    v.push(116);
    v.push(58);
    v.push(32);
    proof {
        assert(v@ =~= seq![71u8, 69u8, 84u8, 32u8, 47u8, 32u8, 72u8, 84u8, 84u8, 80u8, 47u8, 49u8, 46u8, 49u8, 13u8, 10u8, 72u8, 111u8, 115u8, 116u8, 58u8, 32u8]);
    }
    v
}

/// The start of the `Range` header, as bytes.
fn range_lead_vec() -> (r: Vec<u8>)
    ensures
        r@ == seq![82u8, 97u8, 110u8, 103u8, 101u8, 58u8, 32u8, 98u8, 121u8, 116u8, 101u8, 115u8, 61u8],
{
    let mut v: Vec<u8> = Vec::new();
    v.push(82);
    v.push(97);
    v.push(110);
    v.push(103);
    v.push(101);
    v.push(58);
    v.push(32);
    v.push(98);
    v.push(121);
    v.push(116);
    v.push(101);
    v.push(115);
    v.push(61);
    proof {
        assert(v@ =~= seq![82u8, 97u8, 110u8, 103u8, 101u8, 58u8, 32u8, 98u8, 121u8, 116u8, 101u8, 115u8, 61u8]);
    }
    v
}

/// The closing header and blank line, as bytes.
fn suffix_vec() -> (r: Vec<u8>)
    ensures
        r@ == request_suffix(),
{
    let mut v: Vec<u8> = Vec::new();
    v.push(67);
    v.push(111);
    v.push(110);
    v.push(110);
    v.push(101);
    v.push(99);
    v.push(116);
    v.push(105);
    v.push(111);
    v.push(110);
    v.push(58);
    v.push(32);
    v.push(99);
    v.push(108);
    v.push(111);
    v.push(115);
    v.push(101);
    v.push(13);
    v.push(10);
    v.push(13);
    v.push(10);
    proof {
        assert(v@ =~= request_suffix());
    }
    v
}

/// Build the raw bytes of one request: an un-ranged request when `range`
/// is absent (length discovery), a ranged chunk request for `[start, end)`
/// otherwise. Always one `Host` header and non-persistent semantics.
pub fn build_request(host: &str, range: Option<(usize, usize)>) -> (r: Vec<u8>)
    ensures
        r@ == request_bytes(
            host.spec_bytes(),
            (match range {
                None => None::<(int, int)>,
                Some(p) => Some((p.0 as int, p.1 as int)),
            }),
        ),
{
    let mut v = prefix_vec();
    v.extend_from_slice(host.as_bytes());
    v.push(13);
    v.push(10);
    proof {
        assert(v@ =~= request_prefix(host.spec_bytes()));
    }
    let ghost head = v@;
    match range {
        None => {},
        Some((start, end)) => {
            let mut lead = range_lead_vec();
            v.append(&mut lead);
            let mut ds = format_dec(start);
            v.append(&mut ds);
            v.push(45);
            let mut de = format_dec(end);
            v.append(&mut de);
            v.push(13);
            v.push(10);
            proof {
                assert(v@ =~= head + range_header(start as int, end as int));
            }
        },
    }
    let mut tail = suffix_vec();
    v.append(&mut tail);
    proof {
        match range {
            None => {
                assert(v@ =~= request_prefix(host.spec_bytes()) + request_suffix());
            },
            Some((start, end)) => {
                assert(v@ =~= request_prefix(host.spec_bytes()) + range_header(
                    start as int,
                    end as int,
                ) + request_suffix());
            },
        }
    }
    v
}

} // verus!
