use vstd::prelude::*;

use vstd::slice::{slice_index_get, slice_subrange, slice_to_vec};
use vstd::string::StrSliceExecFns;
use vstd::utf8::{decode_utf8, encode_utf8, valid_utf8};

use crate::action::{Action, ActionModel};

verus! {

/// The snapshot layout, in fixed order: an entry count, that many
/// `(key, value)` records, an action count, then that many tagged action
/// records. Counts and byte lengths are 64-bit little-endian; every string is
/// length-prefixed UTF-8.
pub type EntryModel = (Seq<char>, Seq<char>);

/// The tag byte that opens an encoded set action.
pub const SET_TAG: u8 = 0;

/// The tag byte that opens an encoded delete action.
pub const DELETE_TAG: u8 = 1;

/// A 64-bit value as eight little-endian bytes.
pub open spec fn u64_le(n: u64) -> Seq<u8> {
    seq![
        (n & 0xff) as u8,
        ((n >> 8) & 0xff) as u8,
        ((n >> 16) & 0xff) as u8,
        ((n >> 24) & 0xff) as u8,
        ((n >> 32) & 0xff) as u8,
        ((n >> 40) & 0xff) as u8,
        ((n >> 48) & 0xff) as u8,
        ((n >> 56) & 0xff) as u8,
    ]
}

/// The 64-bit value eight little-endian bytes stand for.
pub open spec fn u64_of_le(b: Seq<u8>) -> u64
    recommends
        b.len() == 8,
{
    (b[0] as u64) | ((b[1] as u64) << 8) | ((b[2] as u64) << 16) | ((b[3] as u64) << 24) | (
    (b[4] as u64) << 32) | ((b[5] as u64) << 40) | ((b[6] as u64) << 48) | ((b[7] as u64) << 56)
}

pub proof fn lemma_u64_le_round_trip(n: u64)
    ensures
        u64_of_le(u64_le(n)) == n,
{
    let b = u64_le(n);
    assert(((n & 0xff) as u8 as u64) | ((((n >> 8) & 0xff) as u8 as u64) << 8) | ((((n >> 16)
        & 0xff) as u8 as u64) << 16) | ((((n >> 24) & 0xff) as u8 as u64) << 24) | ((((n >> 32)
        & 0xff) as u8 as u64) << 32) | ((((n >> 40) & 0xff) as u8 as u64) << 40) | ((((n >> 48)
        & 0xff) as u8 as u64) << 48) | ((((n >> 56) & 0xff) as u8 as u64) << 56) == n)
        by (bit_vector);
}

/// A byte string, length-prefixed.
pub open spec fn enc_bytes(b: Seq<u8>) -> Seq<u8> {
    u64_le(b.len() as u64) + b
}

/// A character string, as its length-prefixed UTF-8 encoding.
pub open spec fn enc_string(s: Seq<char>) -> Seq<u8> {
    enc_bytes(encode_utf8(s))
}

/// One store entry: its key, then its value.
pub open spec fn enc_entry(e: EntryModel) -> Seq<u8> {
    enc_string(e.0) + enc_string(e.1)
}

/// A run of store entries, in sequence order.
pub open spec fn enc_entries(es: Seq<EntryModel>) -> Seq<u8>
    decreases es.len(),
{
    if es.len() == 0 {
        Seq::empty()
    } else {
        enc_entry(es[0]) + enc_entries(es.drop_first())
    }
}

/// One action: its tag byte, its key, and for a set also its value.
pub open spec fn enc_action(a: ActionModel) -> Seq<u8> {
    match a {
        ActionModel::SetValue(k, v) => seq![SET_TAG] + enc_string(k) + enc_string(v),
        ActionModel::Delete(k) => seq![DELETE_TAG] + enc_string(k),
    }
}

/// A run of actions, in queue order.
pub open spec fn enc_actions(acts: Seq<ActionModel>) -> Seq<u8>
    decreases acts.len(),
{
    if acts.len() == 0 {
        Seq::empty()
    } else {
        enc_action(acts[0]) + enc_actions(acts.drop_first())
    }
}

/// A whole snapshot: entry count, entries, action count, actions.
pub open spec fn enc_snapshot(es: Seq<EntryModel>, acts: Seq<ActionModel>) -> Seq<u8> {
    u64_le(es.len() as u64) + enc_entries(es) + u64_le(acts.len() as u64) + enc_actions(acts)
}

/// A string whose UTF-8 encoding fits behind a 64-bit length prefix. Every
/// string held in memory satisfies this.
pub open spec fn str_fits(s: Seq<char>) -> bool {
    encode_utf8(s).len() < 0x10000000000000000
}

/// Entries a snapshot can carry: a count and byte lengths that fit their
/// 64-bit prefixes.
pub open spec fn wf_entries(es: Seq<EntryModel>) -> bool {
    es.len() < 0x10000000000000000 && forall|i: int|
        0 <= i < es.len() ==> str_fits((#[trigger] es[i]).0) && str_fits(es[i].1)
}

/// Actions a snapshot can carry: a count and byte lengths that fit their
/// 64-bit prefixes.
pub open spec fn wf_actions(acts: Seq<ActionModel>) -> bool {
    acts.len() < 0x10000000000000000 && forall|i: int|
        0 <= i < acts.len() ==> match #[trigger] acts[i] {
            ActionModel::SetValue(k, v) => str_fits(k) && str_fits(v),
            ActionModel::Delete(k) => str_fits(k),
        }
}

/// Decoding, each step consuming a prefix and handing back the rest: a
/// 64-bit little-endian value.
pub open spec fn dec_u64(b: Seq<u8>) -> Option<(u64, Seq<u8>)> {
    if b.len() < 8 {
        None
    } else {
        Some((u64_of_le(b.take(8)), b.skip(8)))
    }
}

/// A length-prefixed byte string.
pub open spec fn dec_bytes(b: Seq<u8>) -> Option<(Seq<u8>, Seq<u8>)> {
    match dec_u64(b) {
        None => None,
        Some((n, rest)) => if rest.len() < n {
            None
        } else {
            Some((rest.take(n as int), rest.skip(n as int)))
        },
    }
}

/// A length-prefixed UTF-8 string; anything but valid UTF-8 is malformed.
pub open spec fn dec_string(b: Seq<u8>) -> Option<(Seq<char>, Seq<u8>)> {
    match dec_bytes(b) {
        None => None,
        Some((bs, rest)) => if valid_utf8(bs) {
            Some((decode_utf8(bs), rest))
        } else {
            None
        },
    }
}

/// `n` consecutive entries.
pub open spec fn dec_entries(b: Seq<u8>, n: nat) -> Option<(Seq<EntryModel>, Seq<u8>)>
    decreases n,
{
    if n == 0 {
        Some((Seq::empty(), b))
    } else {
        match dec_string(b) {
            None => None,
            Some((k, r1)) => match dec_string(r1) {
                None => None,
                Some((v, r2)) => match dec_entries(r2, (n - 1) as nat) {
                    None => None,
                    Some((es, r3)) => Some((seq![(k, v)] + es, r3)),
                },
            },
        }
    }
}

/// One tagged action; an unknown tag is malformed.
pub open spec fn dec_action(b: Seq<u8>) -> Option<(ActionModel, Seq<u8>)> {
    if b.len() < 1 {
        None
    } else if b[0] == SET_TAG {
        match dec_string(b.skip(1)) {
            None => None,
            Some((k, r1)) => match dec_string(r1) {
                None => None,
                Some((v, r2)) => Some((ActionModel::SetValue(k, v), r2)),
            },
        }
    } else if b[0] == DELETE_TAG {
        match dec_string(b.skip(1)) {
            None => None,
            Some((k, r1)) => Some((ActionModel::Delete(k), r1)),
        }
    } else {
        None
    }
}

/// `n` consecutive actions.
pub open spec fn dec_actions(b: Seq<u8>, n: nat) -> Option<(Seq<ActionModel>, Seq<u8>)>
    decreases n,
{
    if n == 0 {
        Some((Seq::empty(), b))
    } else {
        match dec_action(b) {
            None => None,
            Some((a, r1)) => match dec_actions(r1, (n - 1) as nat) {
                None => None,
                Some((acts, r2)) => Some((seq![a] + acts, r2)),
            },
        }
    }
}

/// A whole snapshot; trailing bytes are malformed.
pub open spec fn dec_snapshot(b: Seq<u8>) -> Option<(Seq<EntryModel>, Seq<ActionModel>)> {
    match dec_u64(b) {
        None => None,
        Some((ne, r1)) => match dec_entries(r1, ne as nat) {
            None => None,
            Some((es, r2)) => match dec_u64(r2) {
                None => None,
                Some((na, r3)) => match dec_actions(r3, na as nat) {
                    None => None,
                    Some((acts, r4)) => if r4.len() == 0 {
                        Some((es, acts))
                    } else {
                        None
                    },
                },
            },
        },
    }
}

pub proof fn lemma_dec_u64(n: u64, rest: Seq<u8>)
    ensures
        dec_u64(u64_le(n) + rest) == Some((n, rest)),
{
    let b = u64_le(n) + rest;
    assert(b.take(8) =~= u64_le(n));
    assert(b.skip(8) =~= rest);
    lemma_u64_le_round_trip(n);
}

pub proof fn lemma_dec_bytes(bs: Seq<u8>, rest: Seq<u8>)
    requires
        bs.len() < 0x10000000000000000,
    ensures
        dec_bytes(enc_bytes(bs) + rest) == Some((bs, rest)),
{
    let n = bs.len() as u64;
    assert(enc_bytes(bs) + rest =~= u64_le(n) + (bs + rest));
    lemma_dec_u64(n, bs + rest);
    assert((bs + rest).take(n as int) =~= bs);
    assert((bs + rest).skip(n as int) =~= rest);
}

pub proof fn lemma_dec_string(s: Seq<char>, rest: Seq<u8>)
    requires
        str_fits(s),
    ensures
        dec_string(enc_string(s) + rest) == Some((s, rest)),
{
    broadcast use vstd::utf8::encode_utf8_valid_utf8, vstd::utf8::encode_utf8_decode_utf8;

    lemma_dec_bytes(encode_utf8(s), rest);
}

#[verifier::rlimit(100)]
#[verifier::spinoff_prover]
pub proof fn lemma_dec_entries(es: Seq<EntryModel>, rest: Seq<u8>)
    requires
        wf_entries(es),
    ensures
        dec_entries(enc_entries(es) + rest, es.len() as nat) == Some((es, rest)),
    decreases es.len(),
{
    if es.len() == 0 {
        assert(enc_entries(es) + rest =~= rest);
        assert(dec_entries(rest, 0) == Some((Seq::<EntryModel>::empty(), rest)));
        assert(es =~= Seq::<EntryModel>::empty());
    } else {
        let e = es[0];
        let tail = es.drop_first();
        assert(wf_entries(tail)) by {
            assert forall|i: int| 0 <= i < tail.len() implies str_fits((#[trigger] tail[i]).0)
                && str_fits(tail[i].1) by {
                assert(tail[i] == es[i + 1]);
            }
        }
        let rest2 = enc_entries(tail) + rest;
        let rest1 = enc_string(e.1) + rest2;
        let b = enc_entries(es) + rest;
        assert(b =~= enc_string(e.0) + rest1) by {
            assert(enc_entries(es) == enc_entry(e) + enc_entries(tail));
            assert((enc_entry(e) + enc_entries(tail)) + rest =~= enc_string(e.0) + rest1);
        }
        lemma_dec_string(e.0, rest1);
        lemma_dec_string(e.1, rest2);
        lemma_dec_entries(tail, rest);
        assert(dec_string(b) == Some((e.0, rest1)));
        assert(dec_string(rest1) == Some((e.1, rest2)));
        assert(dec_entries(rest2, tail.len() as nat) == Some((tail, rest)));
        assert(seq![(e.0, e.1)] + tail =~= es);
        assert(dec_entries(b, es.len() as nat) == Some((es, rest)));
    }
}

pub proof fn lemma_dec_action(a: ActionModel, rest: Seq<u8>)
    requires
        wf_actions(seq![a]),
    ensures
        dec_action(enc_action(a) + rest) == Some((a, rest)),
{
    let b = enc_action(a) + rest;
    assert(seq![a][0] == a);
    match a {
        ActionModel::SetValue(k, v) => {
            assert(b[0] == SET_TAG);
            assert(b.skip(1) =~= enc_string(k) + (enc_string(v) + rest));
            lemma_dec_string(k, enc_string(v) + rest);
            lemma_dec_string(v, rest);
        },
        ActionModel::Delete(k) => {
            assert(b[0] == DELETE_TAG);
            assert(b.skip(1) =~= enc_string(k) + rest);
            lemma_dec_string(k, rest);
        },
    }
}

pub proof fn lemma_dec_actions(acts: Seq<ActionModel>, rest: Seq<u8>)
    requires
        wf_actions(acts),
    ensures
        dec_actions(enc_actions(acts) + rest, acts.len() as nat) == Some((acts, rest)),
    decreases acts.len(),
{
    if acts.len() == 0 {
        assert(enc_actions(acts) + rest =~= rest);
        assert(dec_actions(rest, 0) == Some((Seq::<ActionModel>::empty(), rest)));
        assert(acts =~= Seq::<ActionModel>::empty());
    } else {
        let a = acts[0];
        let tail = acts.drop_first();
        assert(wf_actions(seq![a])) by {
            assert(seq![a][0] == acts[0]);
        }
        assert(wf_actions(tail)) by {
            assert forall|i: int| 0 <= i < tail.len() implies match #[trigger] tail[i] {
                ActionModel::SetValue(k, v) => str_fits(k) && str_fits(v),
                ActionModel::Delete(k) => str_fits(k),
            } by {
                assert(tail[i] == acts[i + 1]);
            }
        }
        let b = enc_actions(acts) + rest;
        assert(b =~= enc_action(a) + (enc_actions(tail) + rest));
        lemma_dec_action(a, enc_actions(tail) + rest);
        lemma_dec_actions(tail, rest);
        assert(seq![a] + tail =~= acts);
    }
}

/// Decoding inverts encoding: a well-formed snapshot comes back as exactly
/// the entries and the action sequence it was made from, order preserved.
pub proof fn lemma_snapshot_round_trip(es: Seq<EntryModel>, acts: Seq<ActionModel>)
    requires
        wf_entries(es),
        wf_actions(acts),
    ensures
        dec_snapshot(enc_snapshot(es, acts)) == Some((es, acts)),
{
    let b = enc_snapshot(es, acts);
    let ne = es.len() as u64;
    let na = acts.len() as u64;
    assert(b =~= u64_le(ne) + (enc_entries(es) + (u64_le(na) + enc_actions(acts))));
    lemma_dec_u64(ne, enc_entries(es) + (u64_le(na) + enc_actions(acts)));
    lemma_dec_entries(es, u64_le(na) + enc_actions(acts));
    lemma_dec_u64(na, enc_actions(acts));
    assert(enc_actions(acts) + Seq::<u8>::empty() =~= enc_actions(acts));
    lemma_dec_actions(acts, Seq::<u8>::empty());
}

/// The model of a run of exec entries: each key and value as its characters.
pub open spec fn entries_model(v: Seq<(String, String)>) -> Seq<EntryModel> {
    v.map_values(|e: (String, String)| (e.0@, e.1@))
}

/// The model of a run of exec actions.
pub open spec fn acts_model(v: Seq<Action>) -> Seq<ActionModel> {
    v.map_values(|a: Action| a@)
}

pub proof fn lemma_enc_entries_push(es: Seq<EntryModel>, e: EntryModel)
    ensures
        enc_entries(es.push(e)) == enc_entries(es) + enc_entry(e),
    decreases es.len(),
{
    if es.len() == 0 {
        assert(es.push(e)[0] == e);
        assert(es.push(e).drop_first() =~= Seq::<EntryModel>::empty());
        assert(enc_entries(es.push(e).drop_first()) == Seq::<u8>::empty());
        assert(enc_entries(es.push(e)) == enc_entry(e) + Seq::<u8>::empty());
        assert(enc_entry(e) + Seq::<u8>::empty() =~= enc_entry(e));
        assert(enc_entries(es) == Seq::<u8>::empty());
        assert(Seq::<u8>::empty() + enc_entry(e) =~= enc_entry(e));
    } else {
        assert(es.push(e)[0] == es[0]);
        assert(es.push(e).drop_first() =~= es.drop_first().push(e));
        lemma_enc_entries_push(es.drop_first(), e);
        assert(enc_entry(es[0]) + (enc_entries(es.drop_first()) + enc_entry(e)) =~= (enc_entry(
            es[0],
        ) + enc_entries(es.drop_first())) + enc_entry(e));
    }
}

pub proof fn lemma_enc_actions_push(acts: Seq<ActionModel>, a: ActionModel)
    ensures
        enc_actions(acts.push(a)) == enc_actions(acts) + enc_action(a),
    decreases acts.len(),
{
    if acts.len() == 0 {
        assert(acts.push(a)[0] == a);
        assert(acts.push(a).drop_first() =~= Seq::<ActionModel>::empty());
        assert(enc_actions(acts.push(a).drop_first()) == Seq::<u8>::empty());
        assert(enc_actions(acts.push(a)) == enc_action(a) + Seq::<u8>::empty());
        assert(enc_action(a) + Seq::<u8>::empty() =~= enc_action(a));
        assert(enc_actions(acts) == Seq::<u8>::empty());
        assert(Seq::<u8>::empty() + enc_action(a) =~= enc_action(a));
    } else {
        assert(acts.push(a)[0] == acts[0]);
        assert(acts.push(a).drop_first() =~= acts.drop_first().push(a));
        lemma_enc_actions_push(acts.drop_first(), a);
        assert(enc_action(acts[0]) + (enc_actions(acts.drop_first()) + enc_action(a)) =~= (
        enc_action(acts[0]) + enc_actions(acts.drop_first())) + enc_action(a));
    }
}

fn push_u64(out: &mut Vec<u8>, n: u64)
    ensures
        final(out)@ == old(out)@ + u64_le(n),
{
    proof {
        assert((n & 0xff) <= 0xff && ((n >> 8) & 0xff) <= 0xff && ((n >> 16) & 0xff) <= 0xff && ((n
            >> 24) & 0xff) <= 0xff && ((n >> 32) & 0xff) <= 0xff && ((n >> 40) & 0xff) <= 0xff && ((
        n >> 48) & 0xff) <= 0xff && ((n >> 56) & 0xff) <= 0xff) by (bit_vector);
    }
    out.push((n & 0xff) as u8);
    out.push(((n >> 8) & 0xff) as u8);
    out.push(((n >> 16) & 0xff) as u8);
    out.push(((n >> 24) & 0xff) as u8);
    out.push(((n >> 32) & 0xff) as u8);
    out.push(((n >> 40) & 0xff) as u8);
    out.push(((n >> 48) & 0xff) as u8);
    out.push(((n >> 56) & 0xff) as u8);
    proof {
        assert(out@ =~= old(out)@ + u64_le(n));
    }
}

fn push_string(out: &mut Vec<u8>, s: &String)
    ensures
        final(out)@ == old(out)@ + enc_string(s@),
        str_fits(s@),
{
    let bytes = s.as_str().as_bytes_vec();
    let n = bytes.len();
    push_u64(out, n as u64);
    out.extend_from_slice(bytes.as_slice());
    proof {
        assert(out@ =~= old(out)@ + enc_string(s@));
    }
}

/// Encode a snapshot of the given entries and drained pending actions, in
/// the fixed binary layout.
pub fn encode_snapshot(entries: &Vec<(String, String)>, acts: &Vec<Action>) -> (bytes: Vec<u8>)
    ensures
        wf_entries(entries_model(entries@)),
        wf_actions(acts_model(acts@)),
        bytes@ == enc_snapshot(entries_model(entries@), acts_model(acts@)),
{
    let ghost es = entries_model(entries@);
    let ghost ams = acts_model(acts@);
    let mut out: Vec<u8> = Vec::new();
    push_u64(&mut out, entries.len() as u64);
    let mut i: usize = 0;
    while i < entries.len()
        invariant
            i <= entries@.len(),
            es == entries_model(entries@),
            es.len() == entries@.len(),
            out@ == u64_le(entries@.len() as u64) + enc_entries(es.take(i as int)),
            forall|j: int| 0 <= j < i ==> str_fits((#[trigger] es[j]).0) && str_fits(es[j].1),
        decreases entries@.len() - i,
    {
        push_string(&mut out, &entries[i].0);
        push_string(&mut out, &entries[i].1);
        proof {
            assert(es[i as int] == (entries@[i as int].0@, entries@[i as int].1@));
            lemma_enc_entries_push(es.take(i as int), es[i as int]);
            assert(es.take(i as int).push(es[i as int]) =~= es.take(i + 1));
            assert(out@ =~= u64_le(entries@.len() as u64) + enc_entries(es.take(i + 1)));
        }
        i = i + 1;
    }
    proof {
        assert(es.take(es.len() as int) =~= es);
    }
    push_u64(&mut out, acts.len() as u64);
    let mut k: usize = 0;
    while k < acts.len()
        invariant
            k <= acts@.len(),
            ams == acts_model(acts@),
            ams.len() == acts@.len(),
            wf_entries(es),
            out@ == u64_le(es.len() as u64) + enc_entries(es) + u64_le(acts@.len() as u64)
                + enc_actions(ams.take(k as int)),
            forall|j: int|
                0 <= j < k ==> match #[trigger] ams[j] {
                    ActionModel::SetValue(key, value) => str_fits(key) && str_fits(value),
                    ActionModel::Delete(key) => str_fits(key),
                },
        decreases acts@.len() - k,
    {
        match &acts[k] {
            Action::SetValue(key, value) => {
                out.push(SET_TAG);
                push_string(&mut out, key);
                push_string(&mut out, value);
            },
            Action::Delete(key) => {
                out.push(DELETE_TAG);
                push_string(&mut out, key);
            },
        }
        proof {
            assert(ams[k as int] == acts@[k as int]@);
            lemma_enc_actions_push(ams.take(k as int), ams[k as int]);
            assert(ams.take(k as int).push(ams[k as int]) =~= ams.take(k + 1));
            assert(out@ =~= u64_le(es.len() as u64) + enc_entries(es) + u64_le(
                acts@.len() as u64,
            ) + enc_actions(ams.take(k + 1)));
        }
        k = k + 1;
    }
    proof {
        assert(ams.take(ams.len() as int) =~= ams);
        assert(out@ =~= enc_snapshot(es, ams));
    }
    out
}

/// A decode result with a run of already-decoded entries put back in front.
pub open spec fn prepend_entries(
    pre: Seq<EntryModel>,
    r: Option<(Seq<EntryModel>, Seq<u8>)>,
) -> Option<(Seq<EntryModel>, Seq<u8>)> {
    match r {
        None => None,
        Some((es, rest)) => Some((pre + es, rest)),
    }
}

/// A decode result with a run of already-decoded actions put back in front.
pub open spec fn prepend_actions(
    pre: Seq<ActionModel>,
    r: Option<(Seq<ActionModel>, Seq<u8>)>,
) -> Option<(Seq<ActionModel>, Seq<u8>)> {
    match r {
        None => None,
        Some((acts, rest)) => Some((pre + acts, rest)),
    }
}

/// Relies on `String::from_utf8`: it succeeds exactly on valid UTF-8 input,
/// and the returned string's characters are the decoded scalar values.
#[verifier::external_body]
fn string_from_utf8(bytes: Vec<u8>) -> (r: Option<String>)
    ensures
        r is Some <==> valid_utf8(bytes@),
        r matches Some(s) ==> s@ == decode_utf8(bytes@),
{
    String::from_utf8(bytes).ok()
}

fn read_u64(bytes: &[u8], start: usize) -> (r: Option<(u64, usize)>)
    requires
        start <= bytes@.len(),
    ensures
        r is None ==> dec_u64(bytes@.skip(start as int)) is None,
        r matches Some((n, j)) ==> start <= j <= bytes@.len() && dec_u64(
            bytes@.skip(start as int),
        ) == Some((n, bytes@.skip(j as int))),
{
    if bytes.len() - start < 8 {
        return None;
    }
    let b0 = *slice_index_get(bytes, start) as u64;
    let b1 = *slice_index_get(bytes, start + 1) as u64;
    let b2 = *slice_index_get(bytes, start + 2) as u64;
    let b3 = *slice_index_get(bytes, start + 3) as u64;
    let b4 = *slice_index_get(bytes, start + 4) as u64;
    let b5 = *slice_index_get(bytes, start + 5) as u64;
    let b6 = *slice_index_get(bytes, start + 6) as u64;
    let b7 = *slice_index_get(bytes, start + 7) as u64;
    let n = b0 | (b1 << 8) | (b2 << 16) | (b3 << 24) | (b4 << 32) | (b5 << 40) | (b6 << 48) | (b7
        << 56);
    proof {
        let t = bytes@.skip(start as int);
        assert(t.take(8).len() == 8);
        assert(t.take(8)[0] == bytes@[start as int]);
        assert(t.take(8)[1] == bytes@[start as int + 1]);
        assert(t.take(8)[2] == bytes@[start as int + 2]);
        assert(t.take(8)[3] == bytes@[start as int + 3]);
        assert(t.take(8)[4] == bytes@[start as int + 4]);
        assert(t.take(8)[5] == bytes@[start as int + 5]);
        assert(t.take(8)[6] == bytes@[start as int + 6]);
        assert(t.take(8)[7] == bytes@[start as int + 7]);
        assert(u64_of_le(t.take(8)) == n);
        assert(t.skip(8) =~= bytes@.skip(start as int + 8));
    }
    Some((n, start + 8))
}

fn read_string(bytes: &[u8], start: usize) -> (r: Option<(String, usize)>)
    requires
        start <= bytes@.len(),
    ensures
        r is None ==> dec_string(bytes@.skip(start as int)) is None,
        r matches Some((s, j)) ==> start <= j <= bytes@.len() && dec_string(
            bytes@.skip(start as int),
        ) == Some((s@, bytes@.skip(j as int))),
{
    let (n, mid) = match read_u64(bytes, start) {
        None => {
            return None;
        },
        Some(p) => p,
    };
    let avail = bytes.len() - mid;
    if n > avail as u64 {
        return None;
    }
    let end = mid + (n as usize);
    let sub = slice_subrange(bytes, mid, end);
    let v = slice_to_vec(sub);
    proof {
        assert(bytes@.skip(mid as int).take(n as int) =~= bytes@.subrange(mid as int, end as int));
        assert(bytes@.skip(mid as int).skip(n as int) =~= bytes@.skip(end as int));
    }
    match string_from_utf8(v) {
        None => None,
        Some(s) => Some((s, end)),
    }
}

fn read_action(bytes: &[u8], start: usize) -> (r: Option<(Action, usize)>)
    requires
        start <= bytes@.len(),
    ensures
        r is None ==> dec_action(bytes@.skip(start as int)) is None,
        r matches Some((a, j)) ==> start <= j <= bytes@.len() && dec_action(
            bytes@.skip(start as int),
        ) == Some((a@, bytes@.skip(j as int))),
{
    if bytes.len() - start < 1 {
        return None;
    }
    let tag = *slice_index_get(bytes, start);
    proof {
        assert(bytes@.skip(start as int)[0] == bytes@[start as int]);
        assert(bytes@.skip(start as int).skip(1) =~= bytes@.skip(start as int + 1));
    }
    if tag == SET_TAG {
        match read_string(bytes, start + 1) {
            None => None,
            Some((k, j1)) => match read_string(bytes, j1) {
                None => None,
                Some((v, j2)) => Some((Action::SetValue(k, v), j2)),
            },
        }
    } else if tag == DELETE_TAG {
        match read_string(bytes, start + 1) {
            None => None,
            Some((k, j1)) => Some((Action::Delete(k), j1)),
        }
    } else {
        None
    }
}

/// Decode a whole snapshot. Anything malformed — a short buffer, invalid
/// UTF-8, an unknown tag, trailing bytes — yields nothing.
pub fn decode_snapshot(bytes: &[u8]) -> (r: Option<(Vec<(String, String)>, Vec<Action>)>)
    ensures
        r is Some <==> dec_snapshot(bytes@) is Some,
        r matches Some(p) ==> dec_snapshot(bytes@) == Some(
            (entries_model(p.0@), acts_model(p.1@)),
        ),
{
    proof {
        assert(bytes@.skip(0) =~= bytes@);
    }
    let (ne, start_entries) = match read_u64(bytes, 0) {
        None => {
            return None;
        },
        Some(p) => p,
    };
    let ghost pos0 = start_entries as int;
    let mut pos: usize = start_entries;
    let mut entries: Vec<(String, String)> = Vec::new();
    let mut i: u64 = 0;
    while i < ne
        invariant
            pos <= bytes@.len(),
            i <= ne,
            dec_u64(bytes@) == Some((ne, bytes@.skip(pos0))),
            dec_entries(bytes@.skip(pos0), ne as nat) == prepend_entries(
                entries_model(entries@),
                dec_entries(bytes@.skip(pos as int), (ne - i) as nat),
            ),
        decreases ne - i,
    {
        let ghost pre = entries_model(entries@);
        let ghost m = (ne - i) as nat;
        let (k, j1) = match read_string(bytes, pos) {
            None => {
                return None;
            },
            Some(p) => p,
        };
        let (v, j2) = match read_string(bytes, j1) {
            None => {
                return None;
            },
            Some(p) => p,
        };
        proof {
            let inner = dec_entries(bytes@.skip(j2 as int), (m - 1) as nat);
            assert(dec_entries(bytes@.skip(pos as int), m) == (match inner {
                None => None,
                Some((es2, rest)) => Some((seq![(k@, v@)] + es2, rest)),
            }));
            if inner is Some {
                let es2 = inner.unwrap().0;
                assert(pre + (seq![(k@, v@)] + es2) =~= pre.push((k@, v@)) + es2);
            }
        }
        entries.push((k, v));
        proof {
            assert(entries_model(entries@) =~= pre.push((k@, v@)));
        }
        pos = j2;
        i = i + 1;
    }
    proof {
        assert(dec_entries(bytes@.skip(pos as int), 0) == Some(
            (Seq::<EntryModel>::empty(), bytes@.skip(pos as int)),
        ));
        assert(entries_model(entries@) + Seq::<EntryModel>::empty() =~= entries_model(entries@));
    }
    let ghost decoded_entries = entries_model(entries@);
    let ghost pos1 = pos as int;
    let (na, start_acts) = match read_u64(bytes, pos) {
        None => {
            return None;
        },
        Some(p) => p,
    };
    let ghost pos2 = start_acts as int;
    let mut apos: usize = start_acts;
    let mut acts: Vec<Action> = Vec::new();
    let mut j: u64 = 0;
    while j < na
        invariant
            apos <= bytes@.len(),
            j <= na,
            dec_u64(bytes@) == Some((ne, bytes@.skip(pos0))),
            dec_entries(bytes@.skip(pos0), ne as nat) == Some((decoded_entries, bytes@.skip(pos1))),
            dec_u64(bytes@.skip(pos1)) == Some((na, bytes@.skip(pos2))),
            decoded_entries == entries_model(entries@),
            dec_actions(bytes@.skip(pos2), na as nat) == prepend_actions(
                acts_model(acts@),
                dec_actions(bytes@.skip(apos as int), (na - j) as nat),
            ),
        decreases na - j,
    {
        let ghost pre = acts_model(acts@);
        let ghost m = (na - j) as nat;
        let (a, jnext) = match read_action(bytes, apos) {
            None => {
                return None;
            },
            Some(p) => p,
        };
        proof {
            let inner = dec_actions(bytes@.skip(jnext as int), (m - 1) as nat);
            assert(dec_actions(bytes@.skip(apos as int), m) == (match inner {
                None => None,
                Some((as2, rest)) => Some((seq![a@] + as2, rest)),
            }));
            if inner is Some {
                let as2 = inner.unwrap().0;
                assert(pre + (seq![a@] + as2) =~= pre.push(a@) + as2);
            }
        }
        acts.push(a);
        proof {
            assert(acts_model(acts@) =~= pre.push(a@));
        }
        apos = jnext;
        j = j + 1;
    }
    proof {
        assert(dec_actions(bytes@.skip(apos as int), 0) == Some(
            (Seq::<ActionModel>::empty(), bytes@.skip(apos as int)),
        ));
        assert(acts_model(acts@) + Seq::<ActionModel>::empty() =~= acts_model(acts@));
    }
    if apos == bytes.len() {
        proof {
            assert(bytes@.skip(apos as int).len() == 0);
        }
        Some((entries, acts))
    } else {
        None
    }
}

} // verus!
