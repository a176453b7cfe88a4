//! Splitting encoded series into request bodies that respect the API's size
//! ceilings, with optional gzip compression.
use vstd::prelude::*;
use vstd::seq_lib::lemma_flatten_concat;

verus! {

/// Largest number of bytes that one request may carry, compressed or not.
pub const MAX_PAYLOAD_BYTES: usize = 3200000;

/// Largest number of bytes that one request may expand to once decompressed.
pub const MAX_DECOMPRESSED_PAYLOAD: usize = 62914560;

/// Why a batch of series could not be turned into request bodies.
#[derive(Debug, Clone, Copy, PartialEq, Eq)]
pub enum EncodeError {
    /// One series alone is over the size ceiling and cannot be split.
    Unsplittable,
    /// The compressor reported a failure.
    Compression,
    /// A series could not be written as JSON.
    Serialization,
}

/// What gzip (default level, no header fields set) makes of `b`, or `None`
/// where the encoder reports an error.
pub uninterp spec fn gzip_of(b: Seq<u8>) -> Option<Seq<u8>>;

/// Relies on flate2's `GzEncoder` (write side, default compression): the
/// bytes written out are a function of the input alone.
#[verifier::external_body]
fn gzip(b: &Vec<u8>) -> (r: Option<Vec<u8>>)
    ensures
        match r {
            Some(z) => gzip_of(b@) == Some(z@),
            None => gzip_of(b@) is None,
        },
{
    let mut encoder = flate2::write::GzEncoder::new(Vec::new(), flate2::Compression::default());
    match std::io::Write::write_all(&mut encoder, b.as_slice()) {
        Ok(()) => encoder.finish().ok(),
        Err(_) => None,
    }
}

/// The bytes `{"series":[`.
pub open spec fn series_prefix() -> Seq<u8> {
    seq![123u8, 34, 115, 101, 114, 105, 101, 115, 34, 58, 91]
}

/// The bytes `]}`.
pub open spec fn series_suffix() -> Seq<u8> {
    seq![93u8, 125]
}

/// The encoded series joined by commas.
pub open spec fn joined(s: Seq<Seq<u8>>) -> Seq<u8>
    decreases s.len(),
{
    if s.len() == 0 {
        Seq::empty()
    } else if s.len() == 1 {
        s[0]
    } else {
        joined(s.drop_last()) + seq![44u8] + s.last()
    }
}

/// The request body `{"series":[s0,s1,...]}` around the encoded series.
pub open spec fn framed(s: Seq<Seq<u8>>) -> Seq<u8> {
    series_prefix() + joined(s) + series_suffix()
}

/// What one attempt to encode a whole batch gives.
pub enum Attempt {
    /// The body that is sent.
    Payload(Seq<u8>),
    /// Over a ceiling: the batch must be split.
    Oversized,
    /// The compressor failed.
    Failed,
}

/// One attempt on a raw body: sent as it is, or compressed when `compress`.
pub open spec fn attempt(body: Seq<u8>, compress: bool) -> Attempt {
    if !compress {
        if body.len() < MAX_PAYLOAD_BYTES {
            Attempt::Payload(body)
        } else {
            Attempt::Oversized
        }
    } else if body.len() >= MAX_DECOMPRESSED_PAYLOAD {
        Attempt::Oversized
    } else {
        match gzip_of(body) {
            None => Attempt::Failed,
            Some(z) => if z.len() < MAX_PAYLOAD_BYTES {
                Attempt::Payload(z)
            } else {
                Attempt::Oversized
            },
        }
    }
}

/// The request bodies for the encoded series `s`: the whole batch where it
/// fits, else its two halves in order, each packed the same way.
pub open spec fn packed(s: Seq<Seq<u8>>, compress: bool) -> Result<Seq<Seq<u8>>, EncodeError>
    decreases s.len(),
{
    match attempt(framed(s), compress) {
        Attempt::Payload(p) => Ok(seq![p]),
        Attempt::Failed => Err(EncodeError::Compression),
        Attempt::Oversized => if s.len() <= 1 {
            Err(EncodeError::Unsplittable)
        } else {
            let m = s.len() / 2;
            match packed(s.take(m as int), compress) {
                Err(e) => Err(e),
                Ok(a) => match packed(s.skip(m as int), compress) {
                    Err(e) => Err(e),
                    Ok(b) => Ok(a + b),
                },
            }
        },
    }
}

/// The slices of `s` whose bodies `packed` gives, in the same order.
pub open spec fn chunks(s: Seq<Seq<u8>>, compress: bool) -> Seq<Seq<Seq<u8>>>
    decreases s.len(),
{
    match attempt(framed(s), compress) {
        Attempt::Payload(_) => seq![s],
        Attempt::Failed => Seq::empty(),
        Attempt::Oversized => if s.len() <= 1 {
            Seq::empty()
        } else {
            let m = s.len() / 2;
            chunks(s.take(m as int), compress) + chunks(s.skip(m as int), compress)
        },
    }
}

/// `p` is the body that carries the series `c`: their frame as it is, or
/// that frame, under the decompressed ceiling, after gzip.
pub open spec fn carries(p: Seq<u8>, c: Seq<Seq<u8>>, compress: bool) -> bool {
    if compress {
        framed(c).len() < MAX_DECOMPRESSED_PAYLOAD && gzip_of(framed(c)) == Some(p)
    } else {
        p == framed(c)
    }
}

proof fn lemma_chunks(s: Seq<Seq<u8>>, compress: bool)
    requires
        packed(s, compress) is Ok,
    ensures
        ({
            let p = packed(s, compress).unwrap();
            let c = chunks(s, compress);
            &&& p.len() >= 1
            &&& c.len() == p.len()
            &&& c.flatten() == s
            &&& forall|i: int|
                0 <= i < p.len() ==> #[trigger] carries(p[i], c[i], compress) && p[i].len()
                    < MAX_PAYLOAD_BYTES
        }),
    decreases s.len(),
{
    match attempt(framed(s), compress) {
        Attempt::Payload(_) => {
            seq![s].lemma_flatten_one_element();
        },
        Attempt::Failed => {},
        Attempt::Oversized => {
            let m = s.len() / 2;
            let (l, r) = (s.take(m as int), s.skip(m as int));
            lemma_chunks(l, compress);
            lemma_chunks(r, compress);
            lemma_flatten_concat(chunks(l, compress), chunks(r, compress));
            assert(l + r == s);
            let (a, b) = (packed(l, compress).unwrap(), packed(r, compress).unwrap());
            let (ca, cb) = (chunks(l, compress), chunks(r, compress));
            assert forall|i: int| 0 <= i < a.len() + b.len() implies #[trigger] carries(
                (a + b)[i],
                (ca + cb)[i],
                compress,
            ) && (a + b)[i].len() < MAX_PAYLOAD_BYTES by {
                if i < a.len() {
                    assert(carries(a[i], ca[i], compress));
                } else {
                    assert(carries(b[i - a.len()], cb[i - a.len()], compress));
                }
            }
        },
    }
}

/// Nothing is lost, duplicated or reordered: the bodies carry consecutive
/// slices of the series that, put back together in order, give the series.
pub proof fn lemma_payloads_reconstruct_series(s: Seq<Seq<u8>>, compress: bool)
    requires
        packed(s, compress) is Ok,
    ensures
        ({
            let p = packed(s, compress).unwrap();
            exists|c: Seq<Seq<Seq<u8>>>|
                {
                    &&& c.len() == p.len()
                    &&& c.flatten() == s
                    &&& forall|i: int| 0 <= i < p.len() ==> #[trigger] carries(p[i], c[i], compress)
                }
        }),
{
    lemma_chunks(s, compress);
    let c = chunks(s, compress);
    let p = packed(s, compress).unwrap();
    assert(forall|i: int| 0 <= i < p.len() ==> #[trigger] carries(p[i], c[i], compress));
}

/// Every body is under the transmission ceiling, and what it expands to is
/// under the decompressed ceiling.
pub proof fn lemma_payloads_within_ceilings(s: Seq<Seq<u8>>, compress: bool)
    requires
        packed(s, compress) is Ok,
    ensures
        forall|i: int|
            0 <= i < packed(s, compress).unwrap().len() ==> {
                let b = #[trigger] packed(s, compress).unwrap()[i];
                &&& b.len() < MAX_PAYLOAD_BYTES
                &&& exists|raw: Seq<u8>|
                    raw.len() < MAX_DECOMPRESSED_PAYLOAD && (if compress {
                        gzip_of(raw) == Some(b)
                    } else {
                        raw == b
                    })
            },
{
    lemma_chunks(s, compress);
    let c = chunks(s, compress);
    let p = packed(s, compress).unwrap();
    assert forall|i: int| 0 <= i < p.len() implies #[trigger] p[i].len() < MAX_PAYLOAD_BYTES
        && exists|raw: Seq<u8>|
        raw.len() < MAX_DECOMPRESSED_PAYLOAD && (if compress {
            gzip_of(raw) == Some(p[i])
        } else {
            raw == p[i]
        }) by {
        assert(carries(p[i], c[i], compress));
        assert(p[i].len() < MAX_PAYLOAD_BYTES);
        let raw = framed(c[i]);
        assert(raw.len() < MAX_DECOMPRESSED_PAYLOAD && (if compress {
            gzip_of(raw) == Some(p[i])
        } else {
            raw == p[i]
        }));
    }
}

/// A batch whose body, or compressed body, is over its ceiling goes out in
/// more than one request.
pub proof fn lemma_oversized_batch_splits(s: Seq<Seq<u8>>, compress: bool)
    requires
        packed(s, compress) is Ok,
        compress ==> framed(s).len() >= MAX_DECOMPRESSED_PAYLOAD || (gzip_of(framed(s)) matches Some(
            z,
        ) && z.len() >= MAX_PAYLOAD_BYTES),
        !compress ==> framed(s).len() >= MAX_PAYLOAD_BYTES,
    ensures
        packed(s, compress).unwrap().len() > 1,
{
    let m = s.len() / 2;
    lemma_chunks(s.take(m as int), compress);
    lemma_chunks(s.skip(m as int), compress);
}

/// A batch whose body fits goes out whole, in exactly one request.
pub proof fn lemma_small_batch_single_payload(s: Seq<Seq<u8>>, compress: bool)
    requires
        !compress ==> framed(s).len() < MAX_PAYLOAD_BYTES,
        compress ==> framed(s).len() < MAX_DECOMPRESSED_PAYLOAD && gzip_of(framed(s)) is Some
            && gzip_of(framed(s)).unwrap().len() < MAX_PAYLOAD_BYTES,
    ensures
        packed(s, compress) == Ok::<Seq<Seq<u8>>, EncodeError>(
            seq![if compress { gzip_of(framed(s)).unwrap() } else { framed(s) }],
        ),
{
}

/// One series whose body is over the ceiling is an error, not a loop or a
/// cut body.
pub proof fn lemma_single_oversized_series_unsplittable(x: Seq<u8>, compress: bool)
    requires
        !compress ==> framed(seq![x]).len() >= MAX_PAYLOAD_BYTES,
        compress ==> framed(seq![x]).len() >= MAX_DECOMPRESSED_PAYLOAD || (gzip_of(
            framed(seq![x]),
        ) matches Some(z) && z.len() >= MAX_PAYLOAD_BYTES),
    ensures
        packed(seq![x], compress) == Err::<Seq<Seq<u8>>, EncodeError>(EncodeError::Unsplittable),
{
}

fn push_bytes(out: &mut Vec<u8>, b: &Vec<u8>)
    ensures
        final(out)@ == old(out)@ + b@,
{
    let mut j: usize = 0;
    while j < b.len()
        invariant
            j <= b.len(),
            out@ == old(out)@ + b@.take(j as int),
        decreases b.len() - j,
    {
        out.push(b[j]);
        j = j + 1;
        proof {
            assert(b@.take(j as int) == b@.take(j - 1) + seq![b@[j - 1]]);
        }
    }
    proof {
        assert(b@.take(j as int) == b@);
    }
}

/// The body `{"series":[...]}` around `series[lo..hi]`.
fn frame(series: &Vec<Vec<u8>>, lo: usize, hi: usize) -> (r: Vec<u8>)
    requires
        lo <= hi <= series.len(),
    ensures
        r@ == framed(series.deep_view().subrange(lo as int, hi as int)),
{
    let ghost s = series.deep_view();
    let mut out: Vec<u8> = vec![123u8, 34, 115, 101, 114, 105, 101, 115, 34, 58, 91];
    let mut i: usize = lo;
    while i < hi
        invariant
            lo <= i <= hi <= series.len(),
            s == series.deep_view(),
            out@ == series_prefix() + joined(s.subrange(lo as int, i as int)),
        decreases hi - i,
    {
        if i > lo {
            out.push(44u8);
        }
        push_bytes(&mut out, &series[i]);
        proof {
            let t = s.subrange(lo as int, i + 1);
            assert(t.drop_last() == s.subrange(lo as int, i as int));
            assert(t.last() == series[i as int]@);
            if i == lo {
                assert(joined(s.subrange(lo as int, i as int)) == Seq::<u8>::empty());
            }
        }
        i = i + 1;
    }
    out.push(93u8);
    out.push(125u8);
    out
}

/// Appends to `out` the bodies for `series[lo..hi]`, as `packed` gives them.
fn pack_range(
    series: &Vec<Vec<u8>>,
    lo: usize,
    hi: usize,
    compress: bool,
    out: &mut Vec<Vec<u8>>,
) -> (r: Result<(), EncodeError>)
    requires
        lo <= hi <= series.len(),
    ensures
        match packed(series.deep_view().subrange(lo as int, hi as int), compress) {
            Ok(p) => r is Ok && final(out).deep_view() == old(out).deep_view() + p,
            Err(e) => r == Err::<(), EncodeError>(e),
        },
    decreases hi - lo,
{
    let ghost s = series.deep_view().subrange(lo as int, hi as int);
    let body = frame(series, lo, hi);
    if !compress {
        if body.len() < MAX_PAYLOAD_BYTES {
            let ghost bv = body@;
            assert(body.deep_view() =~= bv);
            out.push(body);
            proof {
                assert(out.deep_view() =~= old(out).deep_view() + seq![bv]);
            }
            return Ok(());
        }
    } else if body.len() < MAX_DECOMPRESSED_PAYLOAD {
        match gzip(&body) {
            None => {
                return Err(EncodeError::Compression);
            },
            Some(z) => {
                if z.len() < MAX_PAYLOAD_BYTES {
                    let ghost zv = z@;
                    assert(z.deep_view() =~= zv);
                    out.push(z);
                    proof {
                        assert(out.deep_view() =~= old(out).deep_view() + seq![zv]);
                    }
                    return Ok(());
                }
            },
        }
    }
    if hi - lo <= 1 {
        return Err(EncodeError::Unsplittable);
    }
    let mid = lo + (hi - lo) / 2;
    proof {
        let m = s.len() / 2;
        assert(s.take(m as int) == series.deep_view().subrange(lo as int, mid as int));
        assert(s.skip(m as int) == series.deep_view().subrange(mid as int, hi as int));
    }
    match pack_range(series, lo, mid, compress, out) {
        Err(e) => {
            return Err(e);
        },
        Ok(()) => {},
    }
    let ghost between = out.deep_view();
    let r = pack_range(series, mid, hi, compress, out);
    proof {
        if let Ok(p) = packed(s, compress) {
            let m = s.len() / 2;
            let a = packed(s.take(m as int), compress).unwrap();
            let b = packed(s.skip(m as int), compress).unwrap();
            assert(out.deep_view() == old(out).deep_view() + a + b);
            assert(old(out).deep_view() + a + b == old(out).deep_view() + (a + b));
        }
    }
    r
}

/// The request bodies for `series`, each an element of the `series` array of
/// one request, compressed with gzip where `compress` holds.
pub fn metric_requests(series: &Vec<Vec<u8>>, compress: bool) -> (r: Result<Vec<Vec<u8>>, EncodeError>)
    ensures
        match packed(series.deep_view(), compress) {
            Ok(p) => r matches Ok(v) && v.deep_view() == p,
            Err(e) => r == Err::<Vec<Vec<u8>>, EncodeError>(e),
        },
{
    if compress {
        split_and_compress_series(series)
    } else {
        split_series(series)
    }
}

/// Uncompressed request bodies for `series`.
pub fn split_series(series: &Vec<Vec<u8>>) -> (r: Result<Vec<Vec<u8>>, EncodeError>)
    ensures
        match packed(series.deep_view(), false) {
            Ok(p) => r matches Ok(v) && v.deep_view() == p,
            Err(e) => r == Err::<Vec<Vec<u8>>, EncodeError>(e),
        },
{
    let mut out: Vec<Vec<u8>> = Vec::new();
    proof {
        assert(series.deep_view().subrange(0, series.len() as int) == series.deep_view());
        assert(out.deep_view() == Seq::<Seq<u8>>::empty());
    }
    match pack_range(series, 0, series.len(), false, &mut out) {
        Ok(()) => {
            proof {
                assert(Seq::<Seq<u8>>::empty() + packed(series.deep_view(), false).unwrap()
                    == packed(series.deep_view(), false).unwrap());
            }
            Ok(out)
        },
        Err(e) => Err(e),
    }
}

/// Gzip-compressed request bodies for `series`.
pub fn split_and_compress_series(series: &Vec<Vec<u8>>) -> (r: Result<Vec<Vec<u8>>, EncodeError>)
    ensures
        match packed(series.deep_view(), true) {
            Ok(p) => r matches Ok(v) && v.deep_view() == p,
            Err(e) => r == Err::<Vec<Vec<u8>>, EncodeError>(e),
        },
{
    let mut out: Vec<Vec<u8>> = Vec::new();
    proof {
        assert(series.deep_view().subrange(0, series.len() as int) == series.deep_view());
        assert(out.deep_view() == Seq::<Seq<u8>>::empty());
    }
    match pack_range(series, 0, series.len(), true, &mut out) {
        Ok(()) => {
            proof {
                assert(Seq::<Seq<u8>>::empty() + packed(series.deep_view(), true).unwrap()
                    == packed(series.deep_view(), true).unwrap());
            }
            Ok(out)
        },
        Err(e) => Err(e),
    }
}
} // verus!
