use vstd::prelude::*;

verus! {

// Fixed-width big-endian byte form of a u64, and its inverse. Every record
// the ledger persists or hashes is framed with these eight-byte fields.

pub open spec fn spec_u64_be(x: u64) -> Seq<u8> {
    seq![
        ((x >> 56) & 0xff) as u8,
        ((x >> 48) & 0xff) as u8,
        ((x >> 40) & 0xff) as u8,
        ((x >> 32) & 0xff) as u8,
        ((x >> 24) & 0xff) as u8,
        ((x >> 16) & 0xff) as u8,
        ((x >> 8) & 0xff) as u8,
        (x & 0xff) as u8,
    ]
}

pub open spec fn spec_u64_from_be(s: Seq<u8>) -> u64
    recommends
        s.len() == 8,
{
    ((s[0] as u64) << 56 | (s[1] as u64) << 48 | (s[2] as u64) << 40 | (s[3] as u64) << 32 | (
    s[4] as u64) << 24 | (s[5] as u64) << 16 | (s[6] as u64) << 8 | (s[7] as u64)) as u64
}

pub proof fn lemma_u64_be_inverse(x: u64)
    ensures
        spec_u64_be(x).len() == 8,
        spec_u64_from_be(spec_u64_be(x)) == x,
{
    let s = spec_u64_be(x);
    assert(((((x >> 56) & 0xff) as u8) as u64) << 56 | ((((x >> 48) & 0xff) as u8) as u64) << 48
        | ((((x >> 40) & 0xff) as u8) as u64) << 40 | ((((x >> 32) & 0xff) as u8) as u64) << 32
        | ((((x >> 24) & 0xff) as u8) as u64) << 24 | ((((x >> 16) & 0xff) as u8) as u64) << 16
        | ((((x >> 8) & 0xff) as u8) as u64) << 8 | (((x & 0xff) as u8) as u64) == x)
        by (bit_vector);
}

/// Append the eight big-endian bytes of `x` to `out`.
pub fn push_u64_be(out: &mut Vec<u8>, x: u64)
    ensures
        final(out)@ == old(out)@ + spec_u64_be(x),
{
    out.push(((x >> 56) & 0xff) as u8);
    out.push(((x >> 48) & 0xff) as u8);
    out.push(((x >> 40) & 0xff) as u8);
    out.push(((x >> 32) & 0xff) as u8);
    out.push(((x >> 24) & 0xff) as u8);
    out.push(((x >> 16) & 0xff) as u8);
    out.push(((x >> 8) & 0xff) as u8);
    out.push((x & 0xff) as u8);
    proof {
        assert(out@ =~= old(out)@ + spec_u64_be(x));
    }
}

/// Read the eight bytes at `i` as a big-endian u64.
pub fn read_u64_be(s: &Vec<u8>, i: usize) -> (x: u64)
    requires
        i + 8 <= s@.len(),
    ensures
        x == spec_u64_from_be(s@.subrange(i as int, i as int + 8)),
{
    let n: usize = s.len();
    let x: u64 = (s[i] as u64) << 56 | (s[i + 1] as u64) << 48 | (s[i + 2] as u64) << 40 | (s[i
        + 3] as u64) << 32 | (s[i + 4] as u64) << 24 | (s[i + 5] as u64) << 16 | (s[i + 6] as u64)
        << 8 | (s[i + 7] as u64);
    proof {
        let sub = s@.subrange(i as int, i as int + 8);
        assert(sub[0] == s@[i as int]);
        assert(sub[1] == s@[i as int + 1]);
        assert(sub[2] == s@[i as int + 2]);
        assert(sub[3] == s@[i as int + 3]);
        assert(sub[4] == s@[i as int + 4]);
        assert(sub[5] == s@[i as int + 5]);
        assert(sub[6] == s@[i as int + 6]);
        assert(sub[7] == s@[i as int + 7]);
    }
    x
}

/// A byte string framed by its length: eight big-endian length bytes, then
/// the bytes themselves.
pub open spec fn spec_enc_bytes(b: Seq<u8>) -> Seq<u8>
    recommends
        b.len() <= u64::MAX,
{
    spec_u64_be(b.len() as u64) + b
}

/// An optional byte string: a one-byte presence tag, then the framed bytes.
pub open spec fn spec_enc_opt_bytes(o: Option<Seq<u8>>) -> Seq<u8> {
    match o {
        Option::None => seq![0u8],
        Option::Some(b) => seq![1u8] + spec_enc_bytes(b),
    }
}

/// An optional u64: a one-byte presence tag, then the eight value bytes.
pub open spec fn spec_enc_opt_u64(o: Option<u64>) -> Seq<u8> {
    match o {
        Option::None => seq![0u8],
        Option::Some(x) => seq![1u8] + spec_u64_be(x),
    }
}

pub open spec fn spec_dec_u64(s: Seq<u8>, i: int) -> Option<(u64, int)> {
    if 0 <= i && i + 8 <= s.len() {
        Option::Some((spec_u64_from_be(s.subrange(i, i + 8)), i + 8))
    } else {
        Option::None
    }
}

pub open spec fn spec_dec_bytes(s: Seq<u8>, i: int) -> Option<(Seq<u8>, int)> {
    match spec_dec_u64(s, i) {
        Option::Some((n, j)) => if j + n <= s.len() {
            Option::Some((s.subrange(j, j + n), j + n))
        } else {
            Option::None
        },
        Option::None => Option::None,
    }
}

pub open spec fn spec_dec_opt_bytes(s: Seq<u8>, i: int) -> Option<(Option<Seq<u8>>, int)> {
    if 0 <= i && i < s.len() {
        if s[i] == 0 {
            Option::Some((Option::None, i + 1))
        } else if s[i] == 1 {
            match spec_dec_bytes(s, i + 1) {
                Option::Some((b, j)) => Option::Some((Option::Some(b), j)),
                Option::None => Option::None,
            }
        } else {
            Option::None
        }
    } else {
        Option::None
    }
}

pub open spec fn spec_dec_opt_u64(s: Seq<u8>, i: int) -> Option<(Option<u64>, int)> {
    if 0 <= i && i < s.len() {
        if s[i] == 0 {
            Option::Some((Option::None, i + 1))
        } else if s[i] == 1 {
            match spec_dec_u64(s, i + 1) {
                Option::Some((x, j)) => Option::Some((Option::Some(x), j)),
                Option::None => Option::None,
            }
        } else {
            Option::None
        }
    } else {
        Option::None
    }
}

/// Append a framed byte string.
pub fn push_bytes(out: &mut Vec<u8>, b: &Vec<u8>)
    ensures
        final(out)@ == old(out)@ + spec_enc_bytes(b@),
{
    push_u64_be(out, b.len() as u64);
    let ghost mid = out@;
    let mut k: usize = 0;
    while k < b.len()
        invariant
            k <= b@.len(),
            out@ == mid + b@.subrange(0, k as int),
        decreases b@.len() - k,
    {
        out.push(b[k]);
        k += 1;
        proof {
            assert(out@ =~= mid + b@.subrange(0, k as int));
        }
    }
    proof {
        assert(b@.subrange(0, b@.len() as int) =~= b@);
        assert(out@ =~= old(out)@ + spec_enc_bytes(b@));
    }
}

/// Append an optional framed byte string.
pub fn push_opt_bytes(out: &mut Vec<u8>, o: &Option<Vec<u8>>)
    ensures
        final(out)@ == old(out)@ + spec_enc_opt_bytes(match *o {
            Option::Some(ref b) => Option::Some(b@),
            Option::None => Option::None,
        }),
{
    match o {
        Option::None => {
            out.push(0u8);
            proof {
                assert(out@ =~= old(out)@ + seq![0u8]);
            }
        },
        Option::Some(b) => {
            out.push(1u8);
            let ghost mid = out@;
            proof {
                assert(mid =~= old(out)@ + seq![1u8]);
            }
            push_bytes(out, b);
            proof {
                assert(out@ =~= old(out)@ + (seq![1u8] + spec_enc_bytes(b@)));
            }
        },
    }
}

/// Append an optional u64.
pub fn push_opt_u64(out: &mut Vec<u8>, o: &Option<u64>)
    ensures
        final(out)@ == old(out)@ + spec_enc_opt_u64(*o),
{
    match o {
        Option::None => {
            out.push(0u8);
            proof {
                assert(out@ =~= old(out)@ + seq![0u8]);
            }
        },
        Option::Some(x) => {
            out.push(1u8);
            let ghost mid = out@;
            proof {
                assert(mid =~= old(out)@ + seq![1u8]);
            }
            push_u64_be(out, *x);
            proof {
                assert(out@ =~= old(out)@ + (seq![1u8] + spec_u64_be(*x)));
            }
        },
    }
}

/// A fresh copy of a byte vector.
pub fn copy_bytes(v: &Vec<u8>) -> (r: Vec<u8>)
    ensures
        r@ == v@,
{
    let mut r: Vec<u8> = Vec::new();
    let mut k: usize = 0;
    while k < v.len()
        invariant
            k <= v@.len(),
            r@ == v@.subrange(0, k as int),
        decreases v@.len() - k,
    {
        r.push(v[k]);
        k += 1;
        proof {
            assert(r@ =~= v@.subrange(0, k as int));
        }
    }
    proof {
        assert(r@ =~= v@);
    }
    r
}

pub fn dec_u64(s: &Vec<u8>, i: usize) -> (r: Option<(u64, usize)>)
    ensures
        r is Some <==> spec_dec_u64(s@, i as int) is Some,
        r is Some ==> spec_dec_u64(s@, i as int) == Option::Some(((r->0).0, (r->0).1 as int)),
{
    if i <= s.len() && s.len() - i >= 8 {
        Some((read_u64_be(s, i), i + 8))
    } else {
        None
    }
}

pub fn dec_bytes(s: &Vec<u8>, i: usize) -> (r: Option<(Vec<u8>, usize)>)
    ensures
        r is Some <==> spec_dec_bytes(s@, i as int) is Some,
        r is Some ==> (spec_dec_bytes(s@, i as int) matches Option::Some(p) && (r->0).0@ == p.0 && (
        r->0).1 as int == p.1),
{
    match dec_u64(s, i) {
        None => None,
        Some((n, j)) => {
            if n <= (s.len() - j) as u64 {
                let m = n as usize;
                let slen = s.len();
                assert(j + m <= slen);
                let mut out: Vec<u8> = Vec::new();
                let mut k: usize = 0;
                while k < m
                    invariant
                        k <= m,
                        j + m <= slen,
                        slen == s@.len(),
                        out@ == s@.subrange(j as int, j as int + k as int),
                    decreases m - k,
                {
                    out.push(s[j + k]);
                    k += 1;
                    proof {
                        assert(out@ =~= s@.subrange(j as int, j as int + k as int));
                    }
                }
                Some((out, j + m))
            } else {
                None
            }
        },
    }
}

pub fn dec_opt_bytes(s: &Vec<u8>, i: usize) -> (r: Option<(Option<Vec<u8>>, usize)>)
    ensures
        r is Some <==> spec_dec_opt_bytes(s@, i as int) is Some,
        r is Some ==> (spec_dec_opt_bytes(s@, i as int) matches Option::Some(p) && (match (r->0).0 {
            Option::Some(ref b) => p.0 matches Option::Some(q) && b@ == q,
            Option::None => p.0 is None,
        }) && (r->0).1 as int == p.1),
{
    if i < s.len() {
        let tag = s[i];
        if tag == 0 {
            Some((None, i + 1))
        } else if tag == 1 {
            match dec_bytes(s, i + 1) {
                Some((b, j)) => Some((Some(b), j)),
                None => None,
            }
        } else {
            None
        }
    } else {
        None
    }
}

pub fn dec_opt_u64(s: &Vec<u8>, i: usize) -> (r: Option<(Option<u64>, usize)>)
    ensures
        r is Some <==> spec_dec_opt_u64(s@, i as int) is Some,
        r is Some ==> spec_dec_opt_u64(s@, i as int) == Option::Some(((r->0).0, (r->0).1 as int)),
{
    if i < s.len() {
        let tag = s[i];
        if tag == 0 {
            Some((None, i + 1))
        } else if tag == 1 {
            match dec_u64(s, i + 1) {
                Some((x, j)) => Some((Some(x), j)),
                None => None,
            }
        } else {
            None
        }
    } else {
        None
    }
}

/// When a stretch of `s` is the concatenation `a + b`, each half matches its
/// own stretch.
pub proof fn lemma_subrange_split(s: Seq<u8>, i: int, a: Seq<u8>, b: Seq<u8>)
    requires
        0 <= i,
        i + a.len() + b.len() <= s.len(),
        s.subrange(i, i + a.len() + b.len()) == a + b,
    ensures
        s.subrange(i, i + a.len()) == a,
        s.subrange(i + a.len(), i + a.len() + b.len()) == b,
{
    let whole = s.subrange(i, i + a.len() + b.len());
    assert forall|k: int| 0 <= k < a.len() implies s.subrange(i, i + a.len())[k] == a[k] by {
        assert(whole[k] == (a + b)[k]);
    }
    assert(s.subrange(i, i + a.len()) =~= a);
    assert forall|k: int| 0 <= k < b.len() implies s.subrange(i + a.len(), i + a.len() + b.len())[k]
        == b[k] by {
        assert(whole[a.len() + k] == (a + b)[a.len() + k]);
    }
    assert(s.subrange(i + a.len(), i + a.len() + b.len()) =~= b);
}

/// Decoding reads back exactly the u64 the encoder wrote.
pub proof fn lemma_dec_u64_at(s: Seq<u8>, i: int, x: u64)
    requires
        0 <= i,
        i + 8 <= s.len(),
        s.subrange(i, i + 8) == spec_u64_be(x),
    ensures
        spec_dec_u64(s, i) == Option::Some((x, i + 8)),
{
    lemma_u64_be_inverse(x);
}

/// Decoding reads back exactly the byte string the encoder framed.
pub proof fn lemma_dec_bytes_at(s: Seq<u8>, i: int, b: Seq<u8>)
    requires
        0 <= i,
        b.len() <= u64::MAX,
        i + 8 + b.len() <= s.len(),
        s.subrange(i, i + 8 + b.len()) == spec_enc_bytes(b),
    ensures
        spec_dec_bytes(s, i) == Option::Some((b, i + 8 + b.len())),
{
    let n = b.len() as u64;
    lemma_u64_be_inverse(n);
    lemma_subrange_split(s, i, spec_u64_be(n), b);
    lemma_dec_u64_at(s, i, n);
}

/// Decoding reads back exactly the optional byte string the encoder wrote.
pub proof fn lemma_dec_opt_bytes_at(s: Seq<u8>, i: int, o: Option<Seq<u8>>)
    requires
        0 <= i,
        i + spec_enc_opt_bytes(o).len() <= s.len(),
        (o matches Option::Some(b) ==> b.len() <= u64::MAX),
        s.subrange(i, i + spec_enc_opt_bytes(o).len()) == spec_enc_opt_bytes(o),
    ensures
        spec_dec_opt_bytes(s, i) == Option::Some((o, i + spec_enc_opt_bytes(o).len())),
{
    match o {
        Option::None => {
            assert(s[i] == spec_enc_opt_bytes(o)[0]);
        },
        Option::Some(b) => {
            lemma_subrange_split(s, i, seq![1u8], spec_enc_bytes(b));
            assert(s[i] == s.subrange(i, i + 1)[0]);
            lemma_dec_bytes_at(s, i + 1, b);
        },
    }
}

/// Decoding reads back exactly the optional u64 the encoder wrote.
pub proof fn lemma_dec_opt_u64_at(s: Seq<u8>, i: int, o: Option<u64>)
    requires
        0 <= i,
        i + spec_enc_opt_u64(o).len() <= s.len(),
        s.subrange(i, i + spec_enc_opt_u64(o).len()) == spec_enc_opt_u64(o),
    ensures
        spec_dec_opt_u64(s, i) == Option::Some((o, i + spec_enc_opt_u64(o).len())),
{
    match o {
        Option::None => {
            assert(s[i] == spec_enc_opt_u64(o)[0]);
        },
        Option::Some(x) => {
            lemma_subrange_split(s, i, seq![1u8], spec_u64_be(x));
            assert(s[i] == s.subrange(i, i + 1)[0]);
            lemma_dec_u64_at(s, i + 1, x);
        },
    }
}

} // verus!
