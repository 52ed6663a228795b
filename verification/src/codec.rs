//! The durable record format.
//!
//! On a cooperative shutdown the whole application state — the opaque
//! authentication blob and the [`PersistedState`] — is written out as one
//! byte record; on startup it is read back.  The format is fixed-layout
//! little-endian: marker, staged time, the two flags, the visited
//! identifiers with a count, and the authentication blob with a length.
//! Decoding rejects anything that is not exactly an encoding, so a load
//! failure can fall back to a fresh state.

use crate::idset::IdSet;
use crate::state::PersistedState;
use vstd::bytes::spec_u64_from_le_bytes;
use vstd::bytes::spec_u64_to_le_bytes;
use vstd::bytes::lemma_auto_spec_u64_to_from_le_bytes;
use vstd::bytes::u64_from_le_bytes;
use vstd::bytes::u64_to_le_bytes;
use vstd::prelude::*;
use vstd::slice::slice_subrange;

verus! {

/// The mathematical content of one durable record.
pub struct StateImage {
    /// The authentication session's opaque bytes.
    pub auth: Seq<u8>,
    pub marker: u64,
    pub since: i64,
    pub remain: bool,
    pub skip: bool,
    /// The visited identifiers, in storage order.
    pub vis: Seq<u64>,
}

/// The image a concrete state and authentication blob make.
pub open spec fn state_image(auth: Seq<u8>, s: PersistedState) -> StateImage {
    StateImage {
        auth,
        marker: s.marker_id,
        since: s.since,
        remain: s.remain,
        skip: s.skip,
        vis: s.visited.as_seq(),
    }
}

/// The visited identifiers, each as eight little-endian bytes.
pub open spec fn ids_bytes(vis: Seq<u64>) -> Seq<u8>
    decreases vis.len(),
{
    if vis.len() == 0 {
        Seq::empty()
    } else {
        ids_bytes(vis.drop_last()) + spec_u64_to_le_bytes(vis.last())
    }
}

pub open spec fn bool_byte(b: bool) -> u8 {
    if b {
        1
    } else {
        0
    }
}

/// The bytes of one durable record.
pub open spec fn spec_encode(img: StateImage) -> Seq<u8> {
    spec_u64_to_le_bytes(img.marker) + spec_u64_to_le_bytes(img.since as u64) + seq![
        bool_byte(img.remain),
        bool_byte(img.skip),
    ] + spec_u64_to_le_bytes(img.vis.len() as u64) + ids_bytes(img.vis) + spec_u64_to_le_bytes(
        img.auth.len() as u64,
    ) + img.auth
}

/// What decoding makes of a byte string: the image it encodes, or nothing.
/// Any header shorter than its fixed part, a flag byte that is not 0 or 1,
/// a count that disagrees with the length, or a repeated identifier makes
/// the record invalid.
pub open spec fn spec_decode(b: Seq<u8>) -> Option<StateImage> {
    if b.len() < 26 {
        Option::None
    } else {
        let marker = spec_u64_from_le_bytes(b.subrange(0, 8));
        let since_u = spec_u64_from_le_bytes(b.subrange(8, 16));
        let rb = b[16];
        let sb = b[17];
        let n = spec_u64_from_le_bytes(b.subrange(18, 26));
        if rb > 1 || sb > 1 {
            Option::None
        } else if b.len() < 26 + 8 * n {
            Option::None
        } else {
            let vis = Seq::new(
                n as nat,
                |i: int| spec_u64_from_le_bytes(b.subrange(26 + 8 * i, 34 + 8 * i)),
            );
            let apos = 26 + 8 * n;
            if b.len() < apos + 8 {
                Option::None
            } else {
                let alen = spec_u64_from_le_bytes(b.subrange(apos as int, apos + 8));
                if b.len() != apos + 8 + alen {
                    Option::None
                } else if !vis.no_duplicates() {
                    Option::None
                } else {
                    Option::Some(
                        StateImage {
                            auth: b.subrange(apos + 8, b.len() as int),
                            marker,
                            since: since_u as i64,
                            remain: rb == 1,
                            skip: sb == 1,
                            vis,
                        },
                    )
                }
            }
        }
    }
}

/// A timestamp carried through the format's unsigned field comes back
/// unchanged.
proof fn lemma_signed_cast_round_trip(x: i64)
    ensures
        (x as u64) as i64 == x,
{
    assert((x as u64) as i64 == x) by (bit_vector);
}

pub proof fn lemma_ids_bytes_len(vis: Seq<u64>)
    ensures
        ids_bytes(vis).len() == 8 * vis.len(),
    decreases vis.len(),
{
    lemma_auto_spec_u64_to_from_le_bytes();
    if vis.len() > 0 {
        lemma_ids_bytes_len(vis.drop_last());
    }
}

pub proof fn lemma_ids_bytes_at(vis: Seq<u64>, i: int)
    requires
        0 <= i < vis.len(),
    ensures
        ids_bytes(vis).subrange(8 * i, 8 * i + 8) == spec_u64_to_le_bytes(vis[i]),
    decreases vis.len(),
{
    lemma_auto_spec_u64_to_from_le_bytes();
    lemma_ids_bytes_len(vis);
    lemma_ids_bytes_len(vis.drop_last());
    if i == vis.len() - 1 {
        assert(ids_bytes(vis).subrange(8 * i, 8 * i + 8) =~= spec_u64_to_le_bytes(vis.last()));
    } else {
        lemma_ids_bytes_at(vis.drop_last(), i);
        assert(ids_bytes(vis).subrange(8 * i, 8 * i + 8) =~= ids_bytes(vis.drop_last()).subrange(
            8 * i,
            8 * i + 8,
        ));
        assert(vis.drop_last()[i] == vis[i]);
    }
}

/// Round trip: decoding an encoded record gives back exactly the image
/// that was encoded.  The identifier count and blob length must fit the
/// format's length fields, and the identifiers must be duplicate-free, as
/// they are in any well-formed state.
pub proof fn lemma_codec_round_trip(img: StateImage)
    requires
        img.vis.no_duplicates(),
        img.vis.len() <= u64::MAX,
        img.auth.len() <= u64::MAX,
    ensures
        spec_decode(spec_encode(img)) == Option::Some(img),
{
    lemma_auto_spec_u64_to_from_le_bytes();
    lemma_ids_bytes_len(img.vis);
    let b = spec_encode(img);
    let n = img.vis.len() as int;
    assert(b.len() == 34 + 8 * n + img.auth.len());
    assert(b.subrange(0, 8) =~= spec_u64_to_le_bytes(img.marker));
    assert(b.subrange(8, 16) =~= spec_u64_to_le_bytes(img.since as u64));
    assert(b[16] == bool_byte(img.remain));
    assert(b[17] == bool_byte(img.skip));
    assert(b.subrange(18, 26) =~= spec_u64_to_le_bytes(img.vis.len() as u64));
    assert(spec_u64_from_le_bytes(b.subrange(18, 26)) == img.vis.len());
    assert forall|i: int| 0 <= i < n implies spec_u64_from_le_bytes(
        b.subrange(26 + 8 * i, 34 + 8 * i),
    ) == img.vis[i] by {
        lemma_ids_bytes_at(img.vis, i);
        assert(b.subrange(26 + 8 * i, 34 + 8 * i) =~= ids_bytes(img.vis).subrange(
            8 * i,
            8 * i + 8,
        ));
    }
    let vis2 = Seq::new(
        img.vis.len(),
        |i: int| spec_u64_from_le_bytes(b.subrange(26 + 8 * i, 34 + 8 * i)),
    );
    assert(vis2 =~= img.vis);
    let apos = 26 + 8 * n;
    assert(b.subrange(apos, apos + 8) =~= spec_u64_to_le_bytes(img.auth.len() as u64));
    assert(b.subrange(apos + 8, b.len() as int) =~= img.auth);
    lemma_signed_cast_round_trip(img.since);
    assert(spec_decode(b) == Option::Some(img));
}

/// Appends the eight little-endian bytes of `x`.
fn push_u64(out: &mut Vec<u8>, x: u64)
    ensures
        final(out)@ == old(out)@ + spec_u64_to_le_bytes(x),
{
    let b = u64_to_le_bytes(x);
    let mut i: usize = 0;
    while i < 8
        invariant
            b@ == spec_u64_to_le_bytes(x),
            b@.len() == 8,
            i <= 8,
            out@ == old(out)@ + b@.take(i as int),
        decreases 8 - i,
    {
        let ghost pre = out@;
        out.push(b[i]);
        proof {
            assert(out@ =~= old(out)@ + b@.take(i + 1 as int));
        }
        i += 1;
    }
    proof {
        assert(b@.take(8) =~= b@);
    }
}

/// Reads eight little-endian bytes at `off`.
fn read_u64(bytes: &Vec<u8>, off: usize) -> (x: u64)
    requires
        off + 8 <= bytes@.len(),
    ensures
        x == spec_u64_from_le_bytes(bytes@.subrange(off as int, off + 8)),
{
    let total = bytes.len();
    assert(off + 8 <= total);
    let sub = slice_subrange(bytes.as_slice(), off, off + 8);
    u64_from_le_bytes(sub)
}

/// Encodes the authentication blob and the state as one durable record.
#[verifier::loop_isolation(false)]
pub fn encode_state(auth: &Vec<u8>, state: &PersistedState) -> (out: Vec<u8>)
    ensures
        out@ == spec_encode(state_image(auth@, *state)),
{
    let mut out: Vec<u8> = Vec::new();
    push_u64(&mut out, state.marker_id);
    push_u64(&mut out, state.since as u64);
    out.push(if state.remain {
        1
    } else {
        0
    });
    out.push(if state.skip {
        1
    } else {
        0
    });
    let n = state.visited.stored_len();
    push_u64(&mut out, n as u64);
    let ghost head = out@;
    let ghost vis = state.visited.as_seq();
    let mut i: usize = 0;
    while i < n
        invariant
            n == vis.len(),
            vis == state.visited.as_seq(),
            i <= n,
            out@ == head + ids_bytes(vis.take(i as int)),
        decreases n - i,
    {
        push_u64(&mut out, state.visited.at(i));
        proof {
            assert(vis.take(i + 1 as int).drop_last() =~= vis.take(i as int));
            assert(vis.take(i + 1 as int).last() == vis[i as int]);
            assert(out@ =~= head + ids_bytes(vis.take(i + 1 as int)));
        }
        i += 1;
    }
    proof {
        assert(vis.take(n as int) =~= vis);
    }
    push_u64(&mut out, auth.len() as u64);
    let ghost mid = out@;
    let alen = auth.len();
    let mut i: usize = 0;
    while i < alen
        invariant
            alen == auth@.len(),
            i <= alen,
            out@ == mid + auth@.take(i as int),
        decreases alen - i,
    {
        out.push(auth[i]);
        proof {
            assert(out@ =~= mid + auth@.take(i + 1 as int));
        }
        i += 1;
    }
    proof {
        assert(auth@.take(alen as int) =~= auth@);
        assert(out@ =~= spec_encode(state_image(auth@, *state)));
    }
    out
}

/// Decodes a durable record; `None` exactly when the bytes are not one.
#[verifier::loop_isolation(false)]
pub fn decode_state(bytes: &Vec<u8>) -> (r: Option<(Vec<u8>, PersistedState)>)
    ensures
        match r {
            Option::None => spec_decode(bytes@) is None,
            Option::Some(p) => p.1.wf() && spec_decode(bytes@) == Option::Some(
                state_image(p.0@, p.1),
            ),
        },
{
    proof {
        lemma_auto_spec_u64_to_from_le_bytes();
    }
    let len = bytes.len();
    if len < 26 {
        return Option::None;
    }
    let marker = read_u64(bytes, 0);
    let since_u = read_u64(bytes, 8);
    let rb = bytes[16];
    let sb = bytes[17];
    if rb > 1 || sb > 1 {
        return Option::None;
    }
    let n64 = read_u64(bytes, 18);
    let rem = len - 26;
    if n64 > (rem / 8) as u64 {
        proof {
            assert(8 * n64 > rem) by (nonlinear_arith)
                requires
                    n64 > rem / 8,
                    rem >= 0,
            ;
            assert(26 + 8 * spec_u64_from_le_bytes(bytes@.subrange(18, 26)) > bytes@.len());
        }
        return Option::None;
    }
    let n = n64 as usize;
    proof {
        assert(8 * n <= rem) by (nonlinear_arith)
            requires
                n <= rem / 8,
                rem >= 0,
        ;
    }
    let ghost vis_spec = Seq::new(
        n as nat,
        |i: int| spec_u64_from_le_bytes(bytes@.subrange(26 + 8 * i, 34 + 8 * i)),
    );
    let mut vis = IdSet::new();
    let mut i: usize = 0;
    while i < n
        invariant
            n == vis_spec.len(),
            vis_spec == Seq::new(
                n as nat,
                |i: int| spec_u64_from_le_bytes(bytes@.subrange(26 + 8 * i, 34 + 8 * i)),
            ),
            26 + 8 * n <= bytes@.len(),
            i <= n,
            vis.wf(),
            vis.as_seq() == vis_spec.take(i as int),
        decreases n - i,
    {
        proof {
            assert(8 * i + 8 <= 8 * n) by (nonlinear_arith)
                requires
                    i < n,
            ;
        }
        let id = read_u64(bytes, 26 + 8 * i);
        proof {
            assert(id == vis_spec[i as int]);
        }
        if vis.contains(id) {
            proof {
                vis.lemma_view();
                assert(vis_spec.take(i as int).contains(id));
                let k = choose|k: int| 0 <= k < i && vis_spec.take(i as int)[k] == id;
                assert(vis_spec[k] == id);
                assert(!vis_spec.no_duplicates());
            }
            return Option::None;
        }
        vis.insert(id);
        proof {
            assert(vis.as_seq() =~= vis_spec.take(i + 1 as int));
        }
        i += 1;
    }
    proof {
        assert(vis_spec.take(n as int) =~= vis_spec);
    }
    let apos = 26 + 8 * n;
    if len - apos < 8 {
        return Option::None;
    }
    let alen64 = read_u64(bytes, apos);
    if alen64 != (len - apos - 8) as u64 {
        return Option::None;
    }
    let mut auth: Vec<u8> = Vec::new();
    let mut i: usize = 0;
    let acount = len - apos - 8;
    while i < acount
        invariant
            apos + 8 + acount == bytes@.len(),
            i <= acount,
            auth@ == bytes@.subrange(apos + 8, apos + 8 + i),
        decreases acount - i,
    {
        auth.push(bytes[apos + 8 + i]);
        proof {
            assert(auth@ =~= bytes@.subrange(apos + 8, apos + 8 + i + 1));
        }
        i += 1;
    }
    let state = PersistedState {
        marker_id: marker,
        since: since_u as i64,
        remain: rb == 1,
        skip: sb == 1,
        visited: vis,
    };
    proof {
        state.visited.lemma_view();
        assert(auth@ =~= bytes@.subrange(apos + 8, bytes@.len() as int));
        assert(spec_decode(bytes@) == Option::Some(state_image(auth@, state)));
    }
    Option::Some((auth, state))
}

} // verus!
