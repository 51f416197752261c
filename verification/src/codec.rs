//! The persistence backend's codec: a whole task collection to bytes and back.
//!
//! The snapshot format is length-prefixed binary: the task count as eight
//! little-endian bytes, then each task as its id (eight bytes), a one-byte
//! status tag, the title's byte length (eight bytes) and the title in UTF-8.

use crate::task::{Status, Task, TaskView, views_of};
use vstd::bytes::{
    lemma_auto_spec_u64_to_from_le_bytes, spec_u64_from_le_bytes, spec_u64_to_le_bytes,
    u64_from_le_bytes, u64_to_le_bytes,
};
use vstd::prelude::*;
use vstd::slice::{slice_subrange, slice_to_vec};
use vstd::utf8::{decode_utf8, encode_utf8, valid_utf8};

verus! {

/// Errors from decoding a persisted snapshot.
#[derive(Clone, Copy, PartialEq, Eq, Structural, Debug)]
pub enum CodecError {
    /// The bytes are not a well-formed snapshot.
    CorruptState,
    /// A status tag outside the closed set appears.
    InvalidStatus,
}

/// The byte that stands for each status in a snapshot.
pub open spec fn status_byte(s: Status) -> u8 {
    match s {
        Status::Pending => 0,
        Status::InProgress => 1,
        Status::Completed => 2,
    }
}

/// One task in a snapshot: id, status tag, title byte length, title bytes.
pub open spec fn spec_encode_task(t: TaskView) -> Seq<u8> {
    spec_u64_to_le_bytes(t.id) + seq![status_byte(t.status)] + spec_u64_to_le_bytes(
        encode_utf8(t.title).len() as u64,
    ) + encode_utf8(t.title)
}

pub open spec fn spec_encode_tasks(ts: Seq<TaskView>) -> Seq<u8>
    decreases ts.len(),
{
    if ts.len() == 0 {
        Seq::empty()
    } else {
        spec_encode_task(ts[0]) + spec_encode_tasks(ts.drop_first())
    }
}

/// A whole snapshot: the task count, then each task in order.
pub open spec fn spec_encode(ts: Seq<TaskView>) -> Seq<u8> {
    spec_u64_to_le_bytes(ts.len() as u64) + spec_encode_tasks(ts)
}

/// Every title's UTF-8 form fits the length field. Any collection that sits
/// in memory satisfies this: a real string is never longer than the address
/// space, let alone the 64-bit length field.
pub open spec fn wf_views(ts: Seq<TaskView>) -> bool {
    forall|i: int|
        0 <= i < ts.len() ==> encode_utf8((#[trigger] ts[i]).title).len() <= u64::MAX
}

pub open spec fn spec_parse_u64(b: Seq<u8>) -> Option<(u64, Seq<u8>)> {
    if b.len() >= 8 {
        Some((spec_u64_from_le_bytes(b.take(8)), b.skip(8)))
    } else {
        None
    }
}

pub open spec fn spec_parse_status(b: Seq<u8>) -> Result<(Status, Seq<u8>), CodecError> {
    if b.len() == 0 {
        Err(CodecError::CorruptState)
    } else if b[0] == 0 {
        Ok((Status::Pending, b.skip(1)))
    } else if b[0] == 1 {
        Ok((Status::InProgress, b.skip(1)))
    } else if b[0] == 2 {
        Ok((Status::Completed, b.skip(1)))
    } else {
        Err(CodecError::InvalidStatus)
    }
}

pub open spec fn spec_parse_task(b: Seq<u8>) -> Result<(TaskView, Seq<u8>), CodecError> {
    match spec_parse_u64(b) {
        None => Err(CodecError::CorruptState),
        Some((id, b1)) => match spec_parse_status(b1) {
            Err(e) => Err(e),
            Ok((st, b2)) => match spec_parse_u64(b2) {
                None => Err(CodecError::CorruptState),
                Some((tlen, b3)) => if b3.len() >= tlen && valid_utf8(b3.take(tlen as int)) {
                    Ok(
                        (
                            TaskView {
                                id,
                                title: decode_utf8(b3.take(tlen as int)),
                                status: st,
                            },
                            b3.skip(tlen as int),
                        ),
                    )
                } else {
                    Err(CodecError::CorruptState)
                },
            },
        },
    }
}

pub open spec fn spec_parse_tasks(b: Seq<u8>, n: nat) -> Result<
    (Seq<TaskView>, Seq<u8>),
    CodecError,
>
    decreases n,
{
    if n == 0 {
        Ok((Seq::empty(), b))
    } else {
        match spec_parse_task(b) {
            Err(e) => Err(e),
            Ok((t, rest)) => match spec_parse_tasks(rest, (n - 1) as nat) {
                Err(e) => Err(e),
                Ok((ts, rest2)) => Ok((seq![t] + ts, rest2)),
            },
        }
    }
}

/// What decoding means: parse the count, then exactly that many tasks, and
/// demand that no bytes trail.
pub open spec fn spec_decode(b: Seq<u8>) -> Result<Seq<TaskView>, CodecError> {
    match spec_parse_u64(b) {
        None => Err(CodecError::CorruptState),
        Some((n, rest)) => match spec_parse_tasks(rest, n as nat) {
            Err(e) => Err(e),
            Ok((ts, rest2)) => if rest2.len() == 0 {
                Ok(ts)
            } else {
                Err(CodecError::CorruptState)
            },
        },
    }
}

/// The status tag written into a snapshot.
pub fn status_code(s: Status) -> (b: u8)
    ensures
        b == status_byte(s),
{
    match s {
        Status::Pending => 0,
        Status::InProgress => 1,
        Status::Completed => 2,
    }
}

proof fn lemma_encode_tasks_push(ts: Seq<TaskView>, t: TaskView)
    ensures
        spec_encode_tasks(ts.push(t)) == spec_encode_tasks(ts) + spec_encode_task(t),
    decreases ts.len(),
{
    if ts.len() == 0 {
        assert(ts.push(t)[0] == t);
        assert(ts.push(t).drop_first() =~= ts);
        assert(spec_encode_tasks(ts) == Seq::<u8>::empty());
        assert(spec_encode_tasks(ts.push(t)) == spec_encode_task(t) + spec_encode_tasks(ts));
        assert(spec_encode_tasks(ts.push(t)) =~= spec_encode_tasks(ts) + spec_encode_task(t));
    } else {
        lemma_encode_tasks_push(ts.drop_first(), t);
        assert(ts.push(t).drop_first() =~= ts.drop_first().push(t));
        assert(ts.push(t)[0] == ts[0]);
        assert(spec_encode_tasks(ts.push(t)) =~= spec_encode_tasks(ts) + spec_encode_task(t));
    }
}

/// Encode the whole collection as one snapshot.
pub fn encode(tasks: &Vec<Task>) -> (out: Vec<u8>)
    ensures
        out@ == spec_encode(views_of(tasks@)),
        views_of(tasks@).len() <= u64::MAX,
        wf_views(views_of(tasks@)),
{
    let ghost all = views_of(tasks@);
    let n = tasks.len();
    let mut out: Vec<u8> = Vec::new();
    let mut count_bytes = u64_to_le_bytes(n as u64);
    out.append(&mut count_bytes);
    proof {
        assert(all.take(0) =~= Seq::<TaskView>::empty());
        assert(out@ =~= spec_u64_to_le_bytes(all.len() as u64) + spec_encode_tasks(all.take(0)));
    }
    let mut i: usize = 0;
    while i < n
        invariant
            n == tasks@.len(),
            all == views_of(tasks@),
            i <= n,
            out@ == spec_u64_to_le_bytes(all.len() as u64) + spec_encode_tasks(all.take(i as int)),
            wf_views(all.take(i as int)),
        decreases n - i,
    {
        let t = &tasks[i];
        let mut id_bytes = u64_to_le_bytes(t.id);
        out.append(&mut id_bytes);
        out.push(status_code(t.status));
        let title_bytes: &[u8] = t.title.as_str().as_bytes();
        let blen = title_bytes.len();
        let mut len_bytes = u64_to_le_bytes(blen as u64);
        out.append(&mut len_bytes);
        let mut body = slice_to_vec(title_bytes);
        out.append(&mut body);
        proof {
            assert(all[i as int] == tasks@[i as int]@);
            assert(title_bytes@ == encode_utf8(all[i as int].title));
            lemma_encode_tasks_push(all.take(i as int), all[i as int]);
            assert(all.take(i as int).push(all[i as int]) =~= all.take(i + 1));
            assert(out@ =~= spec_u64_to_le_bytes(all.len() as u64) + spec_encode_tasks(
                all.take(i + 1),
            ));
            assert forall|k: int| 0 <= k < i + 1 implies encode_utf8(
                (#[trigger] all.take(i + 1)[k]).title,
            ).len() <= u64::MAX by {
                assert(all.take(i + 1)[k] == all[k]);
                if k < i {
                    assert(all.take(i as int)[k] == all[k]);
                    assert(encode_utf8(all.take(i as int)[k].title).len() <= u64::MAX);
                }
            }
        }
        i = i + 1;
    }
    proof {
        assert(all.take(n as int) =~= all);
    }
    out
}

/// Relies on core::str::from_utf8: it returns Ok exactly when the bytes are
/// valid UTF-8, and the returned string's characters are the decoded scalar
/// values of those bytes.
#[verifier::external_body]
fn bytes_to_string(v: &[u8]) -> (r: Option<String>)
    ensures
        r is Some <==> valid_utf8(v@),
        r matches Some(s) ==> s@ == decode_utf8(v@),
{
    match core::str::from_utf8(v) {
        Ok(s) => Some(s.to_string()),
        Err(_) => None,
    }
}

fn read_u64(bytes: &Vec<u8>, pos: usize) -> (r: Option<(u64, usize)>)
    requires
        pos <= bytes@.len(),
    ensures
        match r {
            Some(vp) => {
                &&& spec_parse_u64(bytes@.skip(pos as int)) == Some(
                    (vp.0, bytes@.skip(vp.1 as int)),
                )
                &&& vp.1 == pos + 8
                &&& vp.1 <= bytes@.len()
            },
            None => spec_parse_u64(bytes@.skip(pos as int)) is None,
        },
{
    if bytes.len() - pos >= 8 {
        let s = slice_subrange(bytes.as_slice(), pos, pos + 8);
        let v = u64_from_le_bytes(s);
        proof {
            assert(bytes@.skip(pos as int).take(8) =~= s@);
            assert(bytes@.skip(pos as int).skip(8) =~= bytes@.skip(pos as int + 8));
        }
        Some((v, pos + 8))
    } else {
        None
    }
}

fn parse_task_at(bytes: &Vec<u8>, pos: usize) -> (r: Result<(Task, usize), CodecError>)
    requires
        pos <= bytes@.len(),
    ensures
        match r {
            Ok(tp) => {
                &&& tp.1 <= bytes@.len()
                &&& spec_parse_task(bytes@.skip(pos as int)) == Ok::<_, CodecError>(
                    (tp.0@, bytes@.skip(tp.1 as int)),
                )
            },
            Err(e) => spec_parse_task(bytes@.skip(pos as int)) == Err::<
                (TaskView, Seq<u8>),
                CodecError,
            >(e),
        },
{
    let (id, p1) = match read_u64(bytes, pos) {
        None => {
            return Err(CodecError::CorruptState);
        },
        Some(vp) => vp,
    };
    let ghost b1 = bytes@.skip(p1 as int);
    if p1 == bytes.len() {
        assert(b1.len() == 0);
        return Err(CodecError::CorruptState);
    }
    let tag = bytes[p1];
    proof {
        assert(b1[0] == bytes@[p1 as int]);
        assert(b1.skip(1) =~= bytes@.skip(p1 as int + 1));
    }
    let status = if tag == 0 {
        Status::Pending
    } else if tag == 1 {
        Status::InProgress
    } else if tag == 2 {
        Status::Completed
    } else {
        return Err(CodecError::InvalidStatus);
    };
    let p2 = p1 + 1;
    let (tlen, p3) = match read_u64(bytes, p2) {
        None => {
            return Err(CodecError::CorruptState);
        },
        Some(vp) => vp,
    };
    let ghost b3 = bytes@.skip(p3 as int);
    if ((bytes.len() - p3) as u64) < tlen {
        assert(b3.len() < tlen);
        return Err(CodecError::CorruptState);
    }
    let tl = tlen as usize;
    let body = slice_subrange(bytes.as_slice(), p3, p3 + tl);
    proof {
        assert(b3.take(tlen as int) =~= body@);
        assert(b3.skip(tlen as int) =~= bytes@.skip(p3 as int + tl as int));
    }
    match bytes_to_string(body) {
        None => Err(CodecError::CorruptState),
        Some(title) => {
            let t = Task { id, title, status };
            proof {
                assert(t@ =~= (TaskView {
                    id,
                    title: decode_utf8(b3.take(tlen as int)),
                    status,
                }));
            }
            Ok((t, p3 + tl))
        },
    }
}

/// The model of a decoder's result: errors stay, tasks go to their views.
pub open spec fn decode_view(r: Result<Vec<Task>, CodecError>) -> Result<
    Seq<TaskView>,
    CodecError,
> {
    match r {
        Ok(ts) => Ok(views_of(ts@)),
        Err(e) => Err(e),
    }
}

spec fn parse_state(b: Seq<u8>, n: nat, acc: Seq<TaskView>) -> Result<Seq<TaskView>, CodecError> {
    match spec_parse_tasks(b, n) {
        Err(e) => Err(e),
        Ok((ts, rest)) => if rest.len() == 0 {
            Ok(acc + ts)
        } else {
            Err(CodecError::CorruptState)
        },
    }
}

/// Decode a snapshot back into the task collection it holds.
pub fn decode(bytes: &Vec<u8>) -> (r: Result<Vec<Task>, CodecError>)
    ensures
        decode_view(r) == spec_decode(bytes@),
{
    proof {
        assert(bytes@.skip(0) =~= bytes@);
    }
    let (count, start) = match read_u64(bytes, 0) {
        None => {
            return Err(CodecError::CorruptState);
        },
        Some(vp) => vp,
    };
    let mut acc: Vec<Task> = Vec::new();
    let mut pos = start;
    let mut i: u64 = 0;
    proof {
        assert(views_of(acc@) =~= Seq::<TaskView>::empty());
        match spec_parse_tasks(bytes@.skip(pos as int), count as nat) {
            Err(_) => {},
            Ok((ts, rest)) => {
                assert(Seq::<TaskView>::empty() + ts =~= ts);
            },
        }
    }
    while i < count
        invariant
            i <= count,
            pos <= bytes@.len(),
            parse_state(bytes@.skip(pos as int), (count - i) as nat, views_of(acc@))
                == spec_decode(bytes@),
        decreases count - i,
    {
        let ghost pre = views_of(acc@);
        let ghost m = (count - i) as nat;
        match parse_task_at(bytes, pos) {
            Err(e) => {
                proof {
                    assert(spec_parse_tasks(bytes@.skip(pos as int), m) == Err::<
                        (Seq<TaskView>, Seq<u8>),
                        CodecError,
                    >(e));
                }
                return Err(e);
            },
            Ok((t, p2)) => {
                proof {
                    let b = bytes@.skip(pos as int);
                    let b2 = bytes@.skip(p2 as int);
                    assert(spec_parse_task(b) == Ok::<_, CodecError>((t@, b2)));
                    match spec_parse_tasks(b2, (m - 1) as nat) {
                        Err(_) => {},
                        Ok((ts, rest)) => {
                            assert(pre + (seq![t@] + ts) =~= pre.push(t@) + ts);
                        },
                    }
                }
                acc.push(t);
                proof {
                    assert(views_of(acc@) =~= pre.push(t@));
                }
                pos = p2;
                i = i + 1;
            },
        }
    }
    proof {
        assert(spec_parse_tasks(bytes@.skip(pos as int), 0) == Ok::<_, CodecError>(
            (Seq::<TaskView>::empty(), bytes@.skip(pos as int)),
        ));
        assert(views_of(acc@) + Seq::<TaskView>::empty() =~= views_of(acc@));
    }
    if pos == bytes.len() {
        assert(bytes@.skip(pos as int).len() == 0);
        Ok(acc)
    } else {
        assert(bytes@.skip(pos as int).len() > 0);
        Err(CodecError::CorruptState)
    }
}

proof fn lemma_parse_u64_of_encode(x: u64, rest: Seq<u8>)
    ensures
        spec_parse_u64(spec_u64_to_le_bytes(x) + rest) == Some((x, rest)),
{
    lemma_auto_spec_u64_to_from_le_bytes();
    let b = spec_u64_to_le_bytes(x) + rest;
    assert(b.take(8) =~= spec_u64_to_le_bytes(x));
    assert(b.skip(8) =~= rest);
}

proof fn lemma_parse_status_of_encode(s: Status, rest: Seq<u8>)
    ensures
        spec_parse_status(seq![status_byte(s)] + rest) == Ok::<_, CodecError>((s, rest)),
{
    let b = seq![status_byte(s)] + rest;
    assert(b[0] == status_byte(s));
    assert(b.skip(1) =~= rest);
}

proof fn lemma_parse_task_of_encode(t: TaskView, rest: Seq<u8>)
    requires
        encode_utf8(t.title).len() <= u64::MAX,
    ensures
        spec_parse_task(spec_encode_task(t) + rest) == Ok::<_, CodecError>((t, rest)),
{
    broadcast use vstd::utf8::encode_utf8_valid_utf8, vstd::utf8::encode_utf8_decode_utf8;

    let tb = encode_utf8(t.title);
    let after_id = seq![status_byte(t.status)] + (spec_u64_to_le_bytes(tb.len() as u64) + (tb
        + rest));
    let after_status = spec_u64_to_le_bytes(tb.len() as u64) + (tb + rest);
    let b = spec_encode_task(t) + rest;
    assert(b =~= spec_u64_to_le_bytes(t.id) + after_id);
    lemma_parse_u64_of_encode(t.id, after_id);
    lemma_parse_status_of_encode(t.status, after_status);
    lemma_parse_u64_of_encode(tb.len() as u64, tb + rest);
    assert((tb + rest).take(tb.len() as int) =~= tb);
    assert((tb + rest).skip(tb.len() as int) =~= rest);
    assert((TaskView { id: t.id, title: decode_utf8(tb), status: t.status }) =~= t);
}

proof fn lemma_parse_tasks_of_encode(ts: Seq<TaskView>, rest: Seq<u8>)
    requires
        wf_views(ts),
    ensures
        spec_parse_tasks(spec_encode_tasks(ts) + rest, ts.len()) == Ok::<_, CodecError>((ts, rest)),
    decreases ts.len(),
{
    if ts.len() == 0 {
        assert(spec_encode_tasks(ts) + rest =~= rest);
        assert(Seq::<TaskView>::empty() =~= ts);
    } else {
        let tail = ts.drop_first();
        assert(wf_views(tail)) by {
            assert forall|i: int| 0 <= i < tail.len() implies encode_utf8(
                (#[trigger] tail[i]).title,
            ).len() <= u64::MAX by {
                assert(tail[i] == ts[i + 1]);
            }
        }
        lemma_parse_task_of_encode(ts[0], spec_encode_tasks(tail) + rest);
        assert(spec_encode_tasks(ts) + rest =~= spec_encode_task(ts[0]) + (spec_encode_tasks(tail)
            + rest));
        lemma_parse_tasks_of_encode(tail, rest);
        assert(seq![ts[0]] + tail =~= ts);
    }
}

/// Round-trip law: decoding an encoded snapshot yields exactly the tasks that
/// were encoded, for any collection, including the empty one. The two bounds
/// only say that the collection and its titles fit the 64-bit length fields,
/// which holds of anything that sits in memory.
pub proof fn lemma_round_trip(ts: Seq<TaskView>)
    requires
        ts.len() <= u64::MAX,
        wf_views(ts),
    ensures
        spec_decode(spec_encode(ts)) == Ok::<_, CodecError>(ts),
{
    lemma_parse_u64_of_encode(ts.len() as u64, spec_encode_tasks(ts));
    lemma_parse_tasks_of_encode(ts, Seq::<u8>::empty());
    assert(spec_encode_tasks(ts) + Seq::<u8>::empty() =~= spec_encode_tasks(ts));
}

} // verus!
