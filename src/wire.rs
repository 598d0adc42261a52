//! Little-endian integers and length-prefixed byte strings.
use vstd::prelude::*;

verus! {

/// `256` raised to `n`.
pub open spec fn pow256(n: nat) -> nat
    decreases n,
{
    if n == 0 {
        1
    } else {
        256 * pow256((n - 1) as nat)
    }
}

/// The `n` low bytes of `x`, least significant first.
pub open spec fn le_bytes(x: nat, n: nat) -> Seq<u8>
    decreases n,
{
    if n == 0 {
        Seq::empty()
    } else {
        seq![(x % 256) as u8] + le_bytes(x / 256, (n - 1) as nat)
    }
}

/// The number whose little-endian bytes are `s`.
pub open spec fn le_value(s: Seq<u8>) -> nat
    decreases s.len(),
{
    if s.len() == 0 {
        0
    } else {
        s[0] as nat + 256 * le_value(s.drop_first())
    }
}

/// Reads an `n`-byte little-endian integer off the front of `s`.
pub open spec fn parse_uint(s: Seq<u8>, n: nat) -> Option<(nat, Seq<u8>)> {
    if s.len() >= n {
        Some((le_value(s.take(n as int)), s.skip(n as int)))
    } else {
        None
    }
}

/// A byte string: its length in four bytes, then its bytes.
pub open spec fn enc_bytes(b: Seq<u8>) -> Seq<u8> {
    le_bytes(b.len(), 4) + b
}

/// Reads a byte string written by `enc_bytes` off the front of `s`.
pub open spec fn parse_bytes(s: Seq<u8>) -> Option<(Seq<u8>, Seq<u8>)> {
    match parse_uint(s, 4) {
        Some((n, rest)) => if rest.len() >= n {
            Some((rest.take(n as int), rest.skip(n as int)))
        } else {
            None
        },
        None => None,
    }
}

pub proof fn lemma_pow256_facts()
    ensures
        pow256(2) == 0x1_0000,
        pow256(4) == 0x1_0000_0000,
        pow256(8) == 0x1_0000_0000_0000_0000,
{
    reveal_with_fuel(pow256, 9);
}

pub proof fn lemma_pow256_pos(n: nat)
    ensures
        pow256(n) > 0,
    decreases n,
{
    if n > 0 {
        lemma_pow256_pos((n - 1) as nat);
    }
}

pub proof fn lemma_le_bytes_len(x: nat, n: nat)
    ensures
        le_bytes(x, n).len() == n,
    decreases n,
{
    if n > 0 {
        lemma_le_bytes_len(x / 256, (n - 1) as nat);
    }
}

/// Reading back the bytes of a number that fits gives the number.
pub proof fn lemma_le_round_trip(x: nat, n: nat)
    requires
        x < pow256(n),
    ensures
        le_value(le_bytes(x, n)) == x,
        le_bytes(x, n).len() == n,
    decreases n,
{
    lemma_le_bytes_len(x, n);
    if n > 0 {
        let m = (n - 1) as nat;
        assert(x / 256 < pow256(m)) by (nonlinear_arith)
            requires
                x < pow256(n),
                pow256(n) == 256 * pow256(m),
        ;
        lemma_le_round_trip(x / 256, m);
        assert(le_bytes(x, n).drop_first() =~= le_bytes(x / 256, m));
        assert(x == x % 256 + 256 * (x / 256)) by (nonlinear_arith);
    }
}

/// Every byte sequence is the encoding of its value, and that value fits.
pub proof fn lemma_le_canonical(s: Seq<u8>)
    ensures
        le_bytes(le_value(s), s.len()) == s,
        le_value(s) < pow256(s.len()),
    decreases s.len(),
{
    if s.len() > 0 {
        let t = s.drop_first();
        lemma_le_canonical(t);
        let v = le_value(s);
        let w = le_value(t);
        assert(v % 256 == s[0] as nat && v / 256 == w) by (nonlinear_arith)
            requires
                v == s[0] as nat + 256 * w,
                s[0] < 256,
        ;
        assert(v < pow256(s.len())) by (nonlinear_arith)
            requires
                v == s[0] as nat + 256 * w,
                s[0] < 256,
                w < pow256(t.len()),
                pow256(s.len()) == 256 * pow256(t.len()),
        ;
        assert(le_bytes(v, s.len()) =~= s);
    }
}

/// Parsing an integer off `le_bytes(x, n) + rest` gives back `x` and `rest`.
pub proof fn lemma_parse_uint_complete(x: nat, n: nat, rest: Seq<u8>)
    requires
        x < pow256(n),
    ensures
        parse_uint(le_bytes(x, n) + rest, n) == Some((x, rest)),
{
    lemma_le_round_trip(x, n);
    let s = le_bytes(x, n) + rest;
    assert(s.take(n as int) =~= le_bytes(x, n));
    assert(s.skip(n as int) =~= rest);
}

/// What `parse_uint` reads is an encoding of a value that fits.
pub proof fn lemma_parse_uint_sound(s: Seq<u8>, n: nat)
    requires
        parse_uint(s, n) is Some,
    ensures
        ({
            let (x, rest) = parse_uint(s, n)->0;
            x < pow256(n) && s == le_bytes(x, n) + rest
        }),
{
    lemma_le_canonical(s.take(n as int));
    assert(s =~= s.take(n as int) + s.skip(n as int));
}

pub proof fn lemma_parse_bytes_complete(b: Seq<u8>, rest: Seq<u8>)
    requires
        b.len() < pow256(4),
    ensures
        parse_bytes(enc_bytes(b) + rest) == Some((b, rest)),
{
    let s = enc_bytes(b) + rest;
    assert(s =~= le_bytes(b.len(), 4) + (b + rest));
    lemma_parse_uint_complete(b.len(), 4, b + rest);
    assert((b + rest).take(b.len() as int) =~= b);
    assert((b + rest).skip(b.len() as int) =~= rest);
}

pub proof fn lemma_parse_bytes_sound(s: Seq<u8>)
    requires
        parse_bytes(s) is Some,
    ensures
        ({
            let (b, rest) = parse_bytes(s)->0;
            b.len() < pow256(4) && s == enc_bytes(b) + rest
        }),
{
    lemma_parse_uint_sound(s, 4);
    let (n, r1) = parse_uint(s, 4)->0;
    let (b, rest) = parse_bytes(s)->0;
    assert(r1 =~= b + rest);
    assert(s =~= enc_bytes(b) + rest);
}

/// Appends the `n` low bytes of `x`, least significant first.
pub fn push_uint(out: &mut Vec<u8>, x: u64, n: usize)
    requires
        n <= 8,
        x < pow256(n as nat),
    ensures
        final(out)@ == old(out)@ + le_bytes(x as nat, n as nat),
{
    let mut v: u64 = x;
    let mut i: usize = 0;
    while i < n
        invariant
            i <= n,
            old(out)@ + le_bytes(x as nat, n as nat) == out@ + le_bytes(v as nat, (n - i) as nat),
        decreases n - i,
    {
        let ghost prev = out@;
        out.push((v % 256) as u8);
        assert(prev + le_bytes(v as nat, (n - i) as nat) =~= out@ + le_bytes(
            (v / 256) as nat,
            (n - i - 1) as nat,
        ));
        v = v / 256;
        i = i + 1;
    }
    assert(out@ + le_bytes(v as nat, 0) =~= out@);
}

/// Reads the `n`-byte little-endian integer at `pos`, if `b` holds that many bytes there.
pub fn read_uint(b: &[u8], pos: usize, n: usize) -> (r: Option<(u64, usize)>)
    requires
        n <= 8,
        pos <= b@.len(),
    ensures
        match parse_uint(b@.skip(pos as int), n as nat) {
            Some((x, rest)) => r matches Some((v, p)) && v == x && p <= b@.len() && rest == b@.skip(p as int),
            None => r is None,
        },
{
    if n > b.len() - pos {
        return None;
    }
    let ghost s = b@.skip(pos as int);
    let mut v: u64 = 0;
    let mut i: usize = n;
    proof {
        lemma_pow256_facts();
    }
    while i > 0
        invariant
            n <= 8,
            i <= n,
            pos + n <= b@.len(),
            pos + n <= usize::MAX,
            pow256(8) == 0x1_0000_0000_0000_0000,
            v as nat == le_value(b@.subrange(pos + i, pos + n)),
            v < pow256((n - i) as nat),
        decreases i,
    {
        i = i - 1;
        let byte = b[pos + i];
        proof {
            let t = b@.subrange(pos + i, pos + n);
            assert(t.drop_first() =~= b@.subrange(pos + i + 1, pos + n));
            assert(pow256((n - i) as nat) == 256 * pow256((n - i - 1) as nat));
            let k = (n - i - 1) as nat;
            lemma_pow256_mono((n - i) as nat, 8);
            assert(byte + 256 * (v as nat) < pow256((n - i) as nat)) by (nonlinear_arith)
                requires
                    v < pow256(k),
                    byte < 256,
                    pow256((n - i) as nat) == 256 * pow256(k),
            ;
        }
        v = byte as u64 + 256 * v;
    }
    proof {
        assert(s.take(n as int) =~= b@.subrange(pos as int, pos + n));
        assert(s.skip(n as int) =~= b@.skip(pos + n));
    }
    Some((v, pos + n))
}

pub proof fn lemma_pow256_mono(a: nat, b: nat)
    requires
        a <= b,
    ensures
        pow256(a) <= pow256(b),
    decreases b,
{
    if a < b {
        lemma_pow256_mono(a, (b - 1) as nat);
        lemma_pow256_pos((b - 1) as nat);
    }
}

/// Appends `b@` as a byte string: its length in four bytes, then its bytes.
pub fn push_bytes(out: &mut Vec<u8>, b: &Vec<u8>)
    requires
        b@.len() < pow256(4),
    ensures
        final(out)@ == old(out)@ + enc_bytes(b@),
{
    proof {
        lemma_pow256_facts();
    }
    push_uint(out, b.len() as u64, 4);
    let ghost start = out@;
    let mut i: usize = 0;
    while i < b.len()
        invariant
            i <= b@.len(),
            start == old(out)@ + le_bytes(b@.len() as nat, 4),
            out@ == start + b@.take(i as int),
        decreases b@.len() - i,
    {
        out.push(b[i]);
        assert(b@.take(i + 1) =~= b@.take(i as int).push(b@[i as int]));
        i = i + 1;
    }
    assert(b@.take(i as int) =~= b@);
    assert(out@ =~= old(out)@ + enc_bytes(b@));
}

/// Copies out the byte string at `pos`, if a whole one stands there.
pub fn read_bytes(b: &[u8], pos: usize) -> (r: Option<(Vec<u8>, usize)>)
    requires
        pos <= b@.len(),
    ensures
        match parse_bytes(b@.skip(pos as int)) {
            Some((x, rest)) => r matches Some((v, p)) && v@ == x && p <= b@.len() && rest == b@.skip(p as int),
            None => r is None,
        },
{
    match read_uint(b, pos, 4) {
        None => None,
        Some((n, start)) => {
            if n > (b.len() - start) as u64 {
                return None;
            }
            let n = n as usize;
            let mut v: Vec<u8> = Vec::new();
            let mut i: usize = 0;
            while i < n
                invariant
                    i <= n,
                    start + n <= b@.len(),
                    start + n <= usize::MAX,
                    v@ == b@.subrange(start as int, start + i),
                decreases n - i,
            {
                v.push(b[start + i]);
                assert(b@.subrange(start as int, start + i + 1) =~= v@);
                i = i + 1;
            }
            assert(b@.skip(start as int).take(n as int) =~= v@);
            assert(b@.skip(start as int).skip(n as int) =~= b@.skip(start + n));
            Some((v, start + n))
        },
    }
}

/// Items one after the other, each in its own encoding.
pub open spec fn enc_items<T>(items: Seq<T>, enc: spec_fn(T) -> Seq<u8>) -> Seq<u8>
    decreases items.len(),
{
    if items.len() == 0 {
        Seq::empty()
    } else {
        enc(items[0]) + enc_items(items.drop_first(), enc)
    }
}

/// A list: its number of items in four bytes, then the items.
pub open spec fn enc_list<T>(items: Seq<T>, enc: spec_fn(T) -> Seq<u8>) -> Seq<u8> {
    le_bytes(items.len(), 4) + enc_items(items, enc)
}

/// Reads `count` items with `p`, one after the other, off the front of `s`.
pub open spec fn parse_items<T>(
    s: Seq<u8>,
    count: nat,
    p: spec_fn(Seq<u8>) -> Option<(T, Seq<u8>)>,
) -> Option<(Seq<T>, Seq<u8>)>
    decreases count,
{
    if count == 0 {
        Some((Seq::empty(), s))
    } else {
        match p(s) {
            Some((x, rest)) => prepend(seq![x], parse_items(rest, (count - 1) as nat, p)),
            None => None,
        }
    }
}

/// Puts `xs` in front of the items of a parse, if it succeeded.
pub open spec fn prepend<T>(xs: Seq<T>, r: Option<(Seq<T>, Seq<u8>)>) -> Option<(Seq<T>, Seq<u8>)> {
    match r {
        Some((ys, rest)) => Some((xs + ys, rest)),
        None => None,
    }
}

/// Reads a list written by `enc_list` off the front of `s`.
pub open spec fn parse_list<T>(s: Seq<u8>, p: spec_fn(Seq<u8>) -> Option<(T, Seq<u8>)>) -> Option<
    (Seq<T>, Seq<u8>),
> {
    match parse_uint(s, 4) {
        Some((n, rest)) => parse_items(rest, n, p),
        None => None,
    }
}

/// `p` reads back exactly what `enc` writes of the values that satisfy `wf`,
/// and reads nothing else.
pub open spec fn parser_inverts<T>(
    p: spec_fn(Seq<u8>) -> Option<(T, Seq<u8>)>,
    enc: spec_fn(T) -> Seq<u8>,
    wf: spec_fn(T) -> bool,
) -> bool {
    &&& forall|x: T, rest: Seq<u8>| wf(x) ==> #[trigger] p(enc(x) + rest) == Some((x, rest))
    &&& forall|s: Seq<u8>| #[trigger]
        p(s) is Some ==> wf((p(s)->0).0) && s == enc((p(s)->0).0) + (p(s)->0).1
}

pub proof fn lemma_parse_items_complete<T>(
    items: Seq<T>,
    rest: Seq<u8>,
    p: spec_fn(Seq<u8>) -> Option<(T, Seq<u8>)>,
    enc: spec_fn(T) -> Seq<u8>,
    wf: spec_fn(T) -> bool,
)
    requires
        parser_inverts(p, enc, wf),
        forall|i: int| 0 <= i < items.len() ==> wf(#[trigger] items[i]),
    ensures
        parse_items(enc_items(items, enc) + rest, items.len(), p) == Some((items, rest)),
    decreases items.len(),
{
    if items.len() > 0 {
        let tail = items.drop_first();
        let after = enc_items(tail, enc) + rest;
        assert(wf(items[0]));
        assert(enc_items(items, enc) + rest =~= enc(items[0]) + after);
        assert(p(enc(items[0]) + after) == Some((items[0], after)));
        lemma_parse_items_complete(tail, rest, p, enc, wf);
        assert(seq![items[0]] + tail =~= items);
    } else {
        assert(enc_items(items, enc) + rest =~= rest);
        assert(items =~= Seq::<T>::empty());
    }
}

pub proof fn lemma_parse_items_sound<T>(
    s: Seq<u8>,
    count: nat,
    p: spec_fn(Seq<u8>) -> Option<(T, Seq<u8>)>,
    enc: spec_fn(T) -> Seq<u8>,
    wf: spec_fn(T) -> bool,
)
    requires
        parser_inverts(p, enc, wf),
        parse_items(s, count, p) is Some,
    ensures
        ({
            let (xs, rest) = parse_items(s, count, p)->0;
            &&& xs.len() == count
            &&& forall|i: int| 0 <= i < xs.len() ==> wf(#[trigger] xs[i])
            &&& s == enc_items(xs, enc) + rest
        }),
    decreases count,
{
    let (xs, rest) = parse_items(s, count, p)->0;
    if count == 0 {
        assert(s =~= enc_items(xs, enc) + rest);
    } else {
        let (x, r1) = p(s)->0;
        lemma_parse_items_sound(r1, (count - 1) as nat, p, enc, wf);
        let (ys, r2) = parse_items(r1, (count - 1) as nat, p)->0;
        assert(xs =~= seq![x] + ys);
        assert(xs.drop_first() =~= ys);
        assert forall|i: int| 0 <= i < xs.len() implies wf(#[trigger] xs[i]) by {
            if i > 0 {
                assert(xs[i] == ys[i - 1]);
            }
        }
        assert(s =~= enc_items(xs, enc) + rest);
    }
}

/// A list of items that fit reads back as itself.
pub proof fn lemma_parse_list_complete<T>(
    items: Seq<T>,
    rest: Seq<u8>,
    p: spec_fn(Seq<u8>) -> Option<(T, Seq<u8>)>,
    enc: spec_fn(T) -> Seq<u8>,
    wf: spec_fn(T) -> bool,
)
    requires
        parser_inverts(p, enc, wf),
        items.len() < pow256(4),
        forall|i: int| 0 <= i < items.len() ==> wf(#[trigger] items[i]),
    ensures
        parse_list(enc_list(items, enc) + rest, p) == Some((items, rest)),
{
    let body = enc_items(items, enc) + rest;
    assert(enc_list(items, enc) + rest =~= le_bytes(items.len(), 4) + body);
    lemma_parse_uint_complete(items.len(), 4, body);
    lemma_parse_items_complete(items, rest, p, enc, wf);
}

/// What `parse_list` reads is the encoding of a list of items that fit.
pub proof fn lemma_parse_list_sound<T>(
    s: Seq<u8>,
    p: spec_fn(Seq<u8>) -> Option<(T, Seq<u8>)>,
    enc: spec_fn(T) -> Seq<u8>,
    wf: spec_fn(T) -> bool,
)
    requires
        parser_inverts(p, enc, wf),
        parse_list(s, p) is Some,
    ensures
        ({
            let (xs, rest) = parse_list(s, p)->0;
            &&& xs.len() < pow256(4)
            &&& forall|i: int| 0 <= i < xs.len() ==> wf(#[trigger] xs[i])
            &&& s == enc_list(xs, enc) + rest
        }),
{
    lemma_parse_uint_sound(s, 4);
    let (n, r1) = parse_uint(s, 4)->0;
    lemma_parse_items_sound(r1, n, p, enc, wf);
    let (xs, rest) = parse_list(s, p)->0;
    assert(s =~= enc_list(xs, enc) + rest);
}

pub proof fn lemma_enc_items_push<T>(xs: Seq<T>, x: T, enc: spec_fn(T) -> Seq<u8>)
    ensures
        enc_items(xs.push(x), enc) == enc_items(xs, enc) + enc(x),
    decreases xs.len(),
{
    if xs.len() == 0 {
        assert(xs.push(x).drop_first() =~= Seq::<T>::empty());
        assert(xs.push(x)[0] == x);
        assert(enc_items(Seq::<T>::empty(), enc) == Seq::<u8>::empty());
        assert(enc_items(xs.push(x), enc) =~= enc(x));
    } else {
        assert(xs.push(x).drop_first() =~= xs.drop_first().push(x));
        lemma_enc_items_push(xs.drop_first(), x, enc);
        assert(xs.push(x)[0] == xs[0]);
        assert(enc_items(xs.push(x), enc) =~= enc_items(xs, enc) + enc(x));
    }
}

} // verus!
