//! Streaming-response logic shared by the backend adapters: the rolling
//! line buffer, server-sent-event line classification, content
//! accumulation, and the reordering of embedding responses by index.
//!
//! The host performs the network reads and JSON decoding; the functions
//! here make the decisions: where the line boundaries fall, which lines
//! carry data, what the accumulated text is, and in which order embedding
//! rows belong.

use crate::tags;
use vstd::prelude::*;

verus! {

/// Errors of the backend adapters.
#[derive(Debug)]
pub enum AdapterError {
    HttpError(String),
    JsonError(String),
    ApiError(String),
    ModelNotFound(String),
    StreamError(String),
    ChannelError(String),
}

impl AdapterError {
    /// A human-readable rendering of the error.
    pub fn message(&self) -> (r: String)
        ensures
            (self is HttpError ==> r@ == "HTTP error: "@ + self->HttpError_0@),
            (self is JsonError ==> r@ == "JSON error: "@ + self->JsonError_0@),
            (self is ApiError ==> r@ == "API error: "@ + self->ApiError_0@),
            (self is ModelNotFound ==> r@ == "Model not found: "@ + self->ModelNotFound_0@),
            (self is StreamError ==> r@ == "Streaming error: "@ + self->StreamError_0@),
            (self is ChannelError ==> r@ == "Channel error: "@ + self->ChannelError_0@),
    {
        match self {
            AdapterError::HttpError(what) => String::from_str("HTTP error: ").concat(
                what.as_str(),
            ),
            AdapterError::JsonError(what) => String::from_str("JSON error: ").concat(
                what.as_str(),
            ),
            AdapterError::ApiError(what) => String::from_str("API error: ").concat(what.as_str()),
            AdapterError::ModelNotFound(what) => String::from_str("Model not found: ").concat(
                what.as_str(),
            ),
            AdapterError::StreamError(what) => String::from_str("Streaming error: ").concat(
                what.as_str(),
            ),
            AdapterError::ChannelError(what) => String::from_str("Channel error: ").concat(
                what.as_str(),
            ),
        }
    }
}

/// The lines joined back together, a line feed after each.
pub open spec fn join_lines(ls: Seq<Seq<u8>>) -> Seq<u8>
    decreases ls.len(),
{
    if ls.len() == 0 {
        Seq::<u8>::empty()
    } else {
        join_lines(ls.drop_last()) + ls.last() + seq![10u8]
    }
}

/// The rolling text buffer of a streaming response: network chunks go in,
/// complete lines come out, and a partial trailing line waits for the next
/// chunk.
pub struct LineAssembler {
    pub buffer: Vec<u8>,
}

impl LineAssembler {
    /// An empty buffer.
    pub fn new() -> (r: LineAssembler)
        ensures
            r.buffer@.len() == 0,
    {
        LineAssembler { buffer: Vec::new() }
    }

    /// Feed one network chunk and take the lines completed by it. No byte
    /// is lost or invented: the lines, each closed by the line feed that
    /// ended it, followed by the new partial buffer, spell out the old
    /// buffer followed by the chunk. Neither the lines nor the remainder
    /// contain a line feed.
    pub fn push_chunk(&mut self, chunk: &[u8]) -> (lines: Vec<Vec<u8>>)
        requires
            forall|k: int| 0 <= k < old(self).buffer@.len() ==> old(self).buffer@[k] != 10,
        ensures
            join_lines(lines.deep_view()) + final(self).buffer@ == old(self).buffer@ + chunk@,
            forall|i: int, k: int|
                (0 <= i < lines.deep_view().len() && 0 <= k < lines.deep_view()[i].len())
                    ==> lines.deep_view()[i][k] != 10,
            forall|k: int| 0 <= k < final(self).buffer@.len() ==> final(self).buffer@[k] != 10,
            old(self).buffer@.len() + chunk@.len() >= final(self).buffer@.len(),
    {
        let mut lines: Vec<Vec<u8>> = Vec::new();
        let mut i: usize = 0;
        proof {
            assert(join_lines(lines.deep_view()) + self.buffer@ =~= self.buffer@ + chunk@.take(0));
        }
        while i < chunk.len()
            invariant
                0 <= i <= chunk@.len(),
                join_lines(lines.deep_view()) + self.buffer@ == old(self).buffer@ + chunk@.take(
                    i as int,
                ),
                forall|i2: int, k: int|
                    (0 <= i2 < lines.deep_view().len() && 0 <= k < lines.deep_view()[i2].len())
                        ==> lines.deep_view()[i2][k] != 10,
                forall|k: int| 0 <= k < self.buffer@.len() ==> self.buffer@[k] != 10,
                self.buffer@.len() <= old(self).buffer@.len() + i,
            decreases chunk@.len() - i,
        {
            let b = chunk[i];
            let ghost lv0 = lines.deep_view();
            let ghost buf0 = self.buffer@;
            proof {
                assert(chunk@.take(i + 1) =~= chunk@.take(i as int).push(chunk@[i as int]));
            }
            if b == 10 {
                let mut cur: Vec<u8> = Vec::new();
                core::mem::swap(&mut cur, &mut self.buffer);
                lines.push(cur);
                proof {
                    assert(lines.deep_view() =~~= lv0.push(buf0));
                    assert(lines.deep_view().drop_last() =~~= lv0);
                    assert(join_lines(lines.deep_view()) =~= join_lines(lv0) + buf0 + seq![10u8]);
                    assert(join_lines(lines.deep_view()) + self.buffer@ =~= old(self).buffer@
                        + chunk@.take(i + 1));
                }
            } else {
                self.buffer.push(b);
                proof {
                    assert(self.buffer@ =~= buf0.push(b));
                    assert(join_lines(lines.deep_view()) + buf0.push(b) =~= (join_lines(
                        lines.deep_view(),
                    ) + buf0).push(b));
                    assert((old(self).buffer@ + chunk@.take(i as int)).push(b) =~= old(
                        self,
                    ).buffer@ + chunk@.take(i as int).push(b));
                    assert(join_lines(lines.deep_view()) + self.buffer@ =~= old(self).buffer@
                        + chunk@.take(i + 1));
                }
            }
            i = i + 1;
        }
        proof {
            assert(chunk@.take(chunk@.len() as int) =~= chunk@);
        }
        lines
    }
}

/// What a server-sent-event line means.
pub enum SseEvent {
    /// The terminal `[DONE]` marker.
    Done,
    /// The JSON payload of a `data: ` line.
    Data(Vec<u8>),
    /// A blank or comment line, to be ignored.
    Skip,
}

/// The payload of an SSE line: the trimmed line with its `data: ` prefix
/// removed (meaningful when the prefix is there).
pub open spec fn sse_payload(line: Seq<u8>) -> Seq<u8> {
    tags::trim(line).skip(6)
}

/// The trimmed line starts with `data: `.
pub open spec fn sse_is_data(line: Seq<u8>) -> bool {
    let t = tags::trim(line);
    t.len() >= 6 && t.take(6) == seq![100u8, 97u8, 116u8, 97u8, 58u8, 32u8]
}

/// The payload is the terminal marker `[DONE]`.
pub open spec fn sse_is_done(line: Seq<u8>) -> bool {
    sse_is_data(line) && sse_payload(line) == seq![
        91u8,
        68u8,
        79u8,
        78u8,
        69u8,
        93u8,
    ]
}

/// Classify one line of a server-sent-event stream: the `[DONE]` marker,
/// a data payload, or a line to ignore.
pub fn classify_sse_line(line: &[u8]) -> (r: SseEvent)
    ensures
        sse_is_done(line@) ==> r is Done,
        (sse_is_data(line@) && !sse_is_done(line@)) ==> (r is Data && r->Data_0@ == sse_payload(
            line@,
        )),
        !sse_is_data(line@) ==> r is Skip,
{
    let t = tags::trim_bytes(line);
    if t.len() < 6 {
        proof {
            assert(!sse_is_data(line@));
        }
        return SseEvent::Skip;
    }
    let is_data = t[0] == 100 && t[1] == 97 && t[2] == 116 && t[3] == 97 && t[4] == 58 && t[5]
        == 32;
    if !is_data {
        proof {
            if sse_is_data(line@) {
                let pre = tags::trim(line@).take(6);
                assert(pre[0] == 100 && pre[1] == 97 && pre[2] == 116 && pre[3] == 97 && pre[4]
                    == 58 && pre[5] == 32);
            }
        }
        return SseEvent::Skip;
    }
    proof {
        assert(tags::trim(line@).take(6) =~= seq![100u8, 97u8, 116u8, 97u8, 58u8, 32u8]);
    }
    let mut payload: Vec<u8> = Vec::new();
    let mut k: usize = 6;
    while k < t.len()
        invariant
            6 <= k <= t@.len(),
            t@ == tags::trim(line@),
            payload@ =~= t@.subrange(6, k as int),
        decreases t@.len() - k,
    {
        payload.push(t[k]);
        proof {
            assert(t@.subrange(6, k + 1) =~= t@.subrange(6, k as int).push(t@[k as int]));
        }
        k = k + 1;
    }
    proof {
        assert(payload@ =~= tags::trim(line@).skip(6));
    }
    if payload.len() == 6 && payload[0] == 91 && payload[1] == 68 && payload[2] == 79 && payload[3]
        == 78 && payload[4] == 69 && payload[5] == 93 {
        proof {
            assert(sse_payload(line@) =~= seq![91u8, 68u8, 79u8, 78u8, 69u8, 93u8]);
        }
        SseEvent::Done
    } else {
        proof {
            if sse_is_done(line@) {
                assert(payload@.len() == 6);
                assert(payload@[0] == 91 && payload@[1] == 68 && payload@[2] == 79 && payload@[3]
                    == 78 && payload@[4] == 69 && payload@[5] == 93);
            }
        }
        SseEvent::Data(payload)
    }
}

/// The accumulated text of a streaming call. The host feeds each decoded
/// content piece; the accumulator grows by exactly that piece and says
/// whether to forward it (a zero-length token is never forwarded).
pub struct StreamAccumulator {
    pub content: String,
}

impl StreamAccumulator {
    pub fn new() -> (r: StreamAccumulator)
        ensures
            r.content@.len() == 0,
    {
        StreamAccumulator { content: String::new() }
    }

    /// Append one piece; true when the piece should go to the channel.
    pub fn feed(&mut self, piece: &str) -> (emit: bool)
        ensures
            final(self).content@ == old(self).content@ + piece@,
            emit == (piece@.len() != 0),
    {
        let emit = !piece.is_empty();
        self.content.append(piece);
        emit
    }
}

/// The finish reason an adapter reports when the backend only signals
/// completion with a done flag.
pub fn finish_reason_of(done: bool) -> (r: Option<String>)
    ensures
        r is Some <==> done,
        done ==> r->Some_0@ == "stop"@,
{
    if done {
        Some(String::from_str("stop"))
    } else {
        None
    }
}

/// Some item carries index `i`.
pub open spec fn index_covered<T>(items: Seq<(usize, T)>, i: int) -> bool {
    exists|k: int| 0 <= k < items.len() && (#[trigger] items[k].0 as int) == i
}

/// `x` is one of the original items.
pub open spec fn from_items<T>(items: Seq<(usize, T)>, x: (usize, T)) -> bool {
    exists|k0: int| 0 <= k0 < items.len() && x == #[trigger] items[k0]
}

/// The indices `items[k].0` are exactly `0 .. items.len()`.
pub open spec fn perm_indices<T>(items: Seq<(usize, T)>) -> bool {
    &&& forall|k: int| 0 <= k < items.len() ==> (#[trigger] items[k].0 as int) < items.len()
    &&& forall|k1: int, k2: int|
        0 <= k1 < k2 < items.len() ==> (#[trigger] items[k1].0) != (#[trigger] items[k2].0)
    &&& forall|i: int| 0 <= i < items.len() ==> #[trigger] index_covered(items, i)
}

/// Put embedding rows back into request order: row `i` of the result is
/// the payload whose index is `i`. Servers may interleave their rows; the
/// indices must cover each position exactly once, else nothing is
/// returned.
pub fn reorder_by_index<T>(items: Vec<(usize, T)>) -> (r: Option<Vec<T>>)
    ensures
        r is Some <==> perm_indices(items@),
        r is Some ==> r->Some_0@.len() == items@.len(),
        r is Some ==> (forall|k: int|
            0 <= k < items@.len() ==> r->Some_0@[#[trigger] items@[k].0 as int]
                == items@[k].1),
{
    let ghost items0 = items@;
    let n = items.len();
    let mut seen: Vec<bool> = Vec::new();
    let mut i: usize = 0;
    while i < n
        invariant
            seen@.len() == i <= n,
            forall|k: int| 0 <= k < i ==> !(#[trigger] seen@[k]),
        decreases n - i,
    {
        seen.push(false);
        i = i + 1;
    }
    let mut k: usize = 0;
    while k < n
        invariant
            0 <= k <= n,
            n == items@.len(),
            seen@.len() == n,
            forall|i2: int|
                0 <= i2 < n ==> #[trigger] seen@[i2] == exists|k2: int|
                    0 <= k2 < k && (#[trigger] items@[k2].0 as int) == i2,
            forall|k2: int| 0 <= k2 < k ==> (#[trigger] items@[k2].0 as int) < n,
            forall|k1: int, k2: int|
                0 <= k1 < k2 < k ==> (#[trigger] items@[k1].0) != (#[trigger] items@[k2].0),
        decreases n - k,
    {
        let idx = items[k].0;
        if idx >= n {
            proof {
                assert(!perm_indices(items@));
            }
            return None;
        }
        if seen[idx] {
            proof {
                let k2 = choose|k2: int|
                    0 <= k2 < k && (#[trigger] items@[k2].0 as int) == idx as int;
                assert(items@[k2].0 == items@[k as int].0);
                assert(!perm_indices(items@));
            }
            return None;
        }
        let ghost seen0 = seen@;
        seen.set(idx, true);
        proof {
            assert forall|i2: int|
                0 <= i2 < n implies #[trigger] seen@[i2] == exists|k2: int|
                0 <= k2 < k + 1 && (#[trigger] items@[k2].0 as int) == i2 by {
                if i2 == idx as int {
                    assert(items@[k as int].0 as int == i2);
                } else {
                    assert(seen@[i2] == seen0[i2]);
                }
            }
        }
        k = k + 1;
    }
    // every position must be covered
    let mut i2: usize = 0;
    while i2 < n
        invariant
            0 <= i2 <= n,
            n == items@.len(),
            seen@.len() == n,
            forall|i3: int|
                0 <= i3 < n ==> #[trigger] seen@[i3] == exists|k2: int|
                    0 <= k2 < n && (#[trigger] items@[k2].0 as int) == i3,
            forall|k2: int| 0 <= k2 < n ==> (#[trigger] items@[k2].0 as int) < n,
            forall|k1: int, k2: int|
                0 <= k1 < k2 < n ==> (#[trigger] items@[k1].0) != (#[trigger] items@[k2].0),
            forall|i3: int| 0 <= i3 < i2 ==> #[trigger] index_covered(items@, i3),
        decreases n - i2,
    {
        if !seen[i2] {
            proof {
                assert(!index_covered(items@, i2 as int)) by {
                    if index_covered(items@, i2 as int) {
                        let kw = choose|k2: int|
                            0 <= k2 < items@.len() && (#[trigger] items@[k2].0 as int)
                                == i2 as int;
                        assert(seen@[i2 as int]);
                    }
                }
                assert(!perm_indices(items@));
            }
            return None;
        }
        proof {
            let kw = choose|k2: int|
                0 <= k2 < n && (#[trigger] items@[k2].0 as int) == i2 as int;
            assert(0 <= kw < items@.len() && (items@[kw].0 as int) == i2 as int);
            assert(index_covered(items@, i2 as int));
        }
        i2 = i2 + 1;
    }
    proof {
        assert(perm_indices(items@));
    }
    // extract the payloads in index order
    let mut rest = items;
    let mut out: Vec<T> = Vec::new();
    let mut slot: usize = 0;
    proof {
        assert forall|k2: int| 0 <= k2 < rest@.len() implies from_items(
            items0,
            #[trigger] rest@[k2],
        ) by {
            assert(rest@[k2] == items0[k2]);
        }
    }
    while slot < n
        invariant
            0 <= slot <= n,
            n == items0.len(),
            out@.len() == slot,
            rest@.len() == n - slot,
            // what remains is exactly the original items with index >= slot
            forall|k2: int|
                0 <= k2 < rest@.len() ==> slot <= (#[trigger] rest@[k2].0 as int) < n,
            forall|k1: int, k2: int|
                0 <= k1 < k2 < rest@.len() ==> (#[trigger] rest@[k1].0) != (#[trigger] rest@[
                    k2].0),
            forall|k2: int| 0 <= k2 < rest@.len() ==> from_items(items0, #[trigger] rest@[k2]),
            forall|i3: int| slot <= i3 < n ==> #[trigger] index_covered(rest@, i3),
            // output rows already placed
            forall|k0: int|
                (0 <= k0 < items0.len() && (#[trigger] items0[k0].0 as int) < slot) ==> out@[
                    items0[k0].0 as int] == items0[k0].1,
        decreases n - slot,
    {
        let mut k2: usize = 0;
        while k2 < rest.len() && rest[k2].0 != slot
            invariant
                0 <= k2 <= rest@.len(),
                forall|k3: int| 0 <= k3 < k2 ==> (#[trigger] rest@[k3].0 as int) != slot as int,
            decreases rest@.len() - k2,
        {
            k2 = k2 + 1;
        }
        proof {
            if k2 == rest@.len() {
                assert(index_covered(rest@, slot as int));
                let kw = choose|kw: int|
                    0 <= kw < rest@.len() && (#[trigger] rest@[kw].0 as int) == slot as int;
                assert(false);
            }
        }
        let found = k2;
        let ghost rest0 = rest@;
        let ghost out0 = out@;
        let item = rest.remove(found);
        let ghost k0w = choose|k0: int|
            0 <= k0 < items0.len() && rest0[found as int] == #[trigger] items0[k0];
        out.push(item.1);
        proof {
            assert(out@.drop_last() =~= out0);
            assert(rest@ =~= rest0.remove(found as int));
            assert(item == rest0[found as int]);
            assert(item == items0[k0w]);
            assert(items0[k0w].0 == slot);
            assert(out@.last() == items0[k0w].1);
            assert forall|k3: int|
                0 <= k3 < rest@.len() implies (slot + 1 <= (#[trigger] rest@[k3].0 as int)
                < n) by {
                let o = if k3 < found as int {
                    k3
                } else {
                    k3 + 1
                };
                assert(rest@[k3] == rest0[o]);
                if (rest@[k3].0 as int) == (slot as int) {
                    if o < found as int {
                        assert(rest0[o].0 != rest0[found as int].0);
                    } else if (found as int) < o {
                        assert(rest0[found as int].0 != rest0[o].0);
                    }
                }
            }
            assert forall|k1: int, k3: int|
                0 <= k1 < k3 < rest@.len() implies (#[trigger] rest@[k1].0) != (#[trigger] rest@[
                k3].0) by {
                let o1 = if k1 < found as int {
                    k1
                } else {
                    k1 + 1
                };
                let o3 = if k3 < found as int {
                    k3
                } else {
                    k3 + 1
                };
                assert(rest@[k1] == rest0[o1]);
                assert(rest@[k3] == rest0[o3]);
                assert(rest0[o1].0 != rest0[o3].0);
            }
            assert forall|k3: int|
                0 <= k3 < rest@.len() implies from_items(items0, #[trigger] rest@[k3]) by {
                let o = if k3 < found as int {
                    k3
                } else {
                    k3 + 1
                };
                assert(rest@[k3] == rest0[o]);
                assert(from_items(items0, rest0[o]));
                let kx = choose|k0: int|
                    0 <= k0 < items0.len() && rest0[o] == #[trigger] items0[k0];
                assert(rest@[k3] == items0[kx]);
            }
            assert forall|i3: int|
                slot + 1 <= i3 < n implies #[trigger] index_covered(rest@, i3) by {
                assert(index_covered(rest0, i3));
                let kw = choose|k3: int|
                    0 <= k3 < rest0.len() && (#[trigger] rest0[k3].0 as int) == i3;
                assert(kw != found as int);
                if kw < found as int {
                    assert(rest@[kw] == rest0[kw]);
                    assert((rest@[kw].0 as int) == i3);
                } else {
                    assert(rest@[kw - 1] == rest0[kw]);
                    assert((rest@[kw - 1].0 as int) == i3);
                }
            }
            assert forall|k0: int|
                (0 <= k0 < items0.len() && (#[trigger] items0[k0].0 as int) < slot + 1) implies
            out@[items0[k0].0 as int] == items0[k0].1 by {
                if (items0[k0].0 as int) < (slot as int) {
                    assert(out@[items0[k0].0 as int] == out0[items0[k0].0 as int]);
                } else {
                    assert((items0[k0].0 as int) == (slot as int));
                    if k0 != k0w {
                        if k0 < k0w {
                            assert(items0[k0].0 != items0[k0w].0);
                        } else {
                            assert(items0[k0w].0 != items0[k0].0);
                        }
                    }
                    assert(out@[slot as int] == items0[k0w].1);
                }
            }
        }
        slot = slot + 1;
    }
    Some(out)
}

} // verus!
