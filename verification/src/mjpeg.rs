//! Splitting a Motion-JPEG byte stream into JPEG frames.
//!
//! A frame runs from a start-of-image marker (`FF D8`) to the first end-of-image marker (`FF D9`)
//! behind it. Bytes in front of a frame are dropped; the bytes of a frame that has not ended yet
//! are kept for the next chunk.

use vstd::prelude::*;

verus! {

/// Second byte of the start-of-image marker.
pub const START_OF_IMAGE: u8 = 0xD8;

/// Second byte of the end-of-image marker.
pub const END_OF_IMAGE: u8 = 0xD9;

/// An unfinished frame longer than this many bytes is given up.
pub const MAX_PENDING: usize = 5242880;

/// The marker `FF code` stands at index `i` of `s`.
pub open spec fn marker_at(s: Seq<u8>, code: u8, i: int) -> bool {
    0 <= i && i + 1 < s.len() && s[i] == 0xFFu8 && s[i + 1] == code
}

/// `i` is the index of the first marker `FF code` of `s` that does not begin before `from`.
pub open spec fn is_first_marker(s: Seq<u8>, code: u8, from: int, i: int) -> bool {
    &&& from <= i
    &&& marker_at(s, code, i)
    &&& forall|j: int| from <= j < i ==> !#[trigger] marker_at(s, code, j)
}

/// No marker `FF code` of `s` begins at `from` or later.
pub open spec fn no_marker(s: Seq<u8>, code: u8, from: int) -> bool {
    forall|j: int| from <= j ==> !#[trigger] marker_at(s, code, j)
}

/// Index of the first marker `FF code` of `s` at or behind `from`.
pub open spec fn first_marker(s: Seq<u8>, code: u8, from: int) -> Option<int> {
    if no_marker(s, code, from) {
        None
    } else {
        Some(choose|i: int| is_first_marker(s, code, from, i))
    }
}

/// Where the first complete frame of `s` lies: its first index and the index behind its last byte.
pub open spec fn first_frame(s: Seq<u8>) -> Option<(int, int)> {
    match first_marker(s, START_OF_IMAGE, 0) {
        None => None,
        Some(start) => match first_marker(s, END_OF_IMAGE, start + 2) {
            None => None,
            Some(stop) => Some((start, stop + 2)),
        },
    }
}

/// The complete frames of `s`, in order.
pub open spec fn frames_of(s: Seq<u8>) -> Seq<Seq<u8>>
    decreases s.len(),
{
    match first_frame(s) {
        None => Seq::empty(),
        Some((start, stop)) => if 0 <= start < stop <= s.len() {
            seq![s.subrange(start, stop)] + frames_of(s.skip(stop))
        } else {
            Seq::empty()
        },
    }
}

/// What of `s` is kept for the next chunk: the unfinished frame, or all the bytes behind the last
/// complete frame when no further frame has begun in them.
pub open spec fn rest_of(s: Seq<u8>) -> Seq<u8>
    decreases s.len(),
{
    match first_frame(s) {
        None => match first_marker(s, START_OF_IMAGE, 0) {
            None => s,
            Some(start) => s.skip(start),
        },
        Some((start, stop)) => if 0 <= start < stop <= s.len() {
            rest_of(s.skip(stop))
        } else {
            s
        },
    }
}

proof fn lemma_least_marker(s: Seq<u8>, code: u8, from: int, j: int)
    requires
        from <= j,
        marker_at(s, code, j),
    ensures
        exists|i: int| is_first_marker(s, code, from, i),
    decreases j - from,
{
    if exists|k: int| from <= k < j && marker_at(s, code, k) {
        let k = choose|k: int| from <= k < j && marker_at(s, code, k);
        lemma_least_marker(s, code, from, k);
    } else {
        assert(is_first_marker(s, code, from, j));
    }
}

/// A first marker is unique, so it is the one that [`first_marker`] gives.
pub proof fn lemma_first_marker_is(s: Seq<u8>, code: u8, from: int, i: int)
    requires
        is_first_marker(s, code, from, i),
    ensures
        first_marker(s, code, from) == Some(i),
{
    let m = choose|m: int| is_first_marker(s, code, from, m);
    assert(is_first_marker(s, code, from, m));
    if m < i {
        assert(!marker_at(s, code, m));
    }
    if i < m {
        assert(!marker_at(s, code, i));
    }
}

/// What [`first_marker`] gives is a first marker.
pub proof fn lemma_first_marker(s: Seq<u8>, code: u8, from: int)
    ensures
        match first_marker(s, code, from) {
            Some(i) => is_first_marker(s, code, from, i),
            None => no_marker(s, code, from),
        },
{
    if !no_marker(s, code, from) {
        let j = choose|j: int| from <= j && marker_at(s, code, j);
        lemma_least_marker(s, code, from, j);
    }
}

/// Finds the first marker `FF code` at or behind `from`.
fn find_marker(buf: &[u8], code: u8, from: usize) -> (res: Option<usize>)
    ensures
        match res {
            Some(i) => is_first_marker(buf@, code, from as int, i as int) && first_marker(
                buf@,
                code,
                from as int,
            ) == Some(i as int),
            None => first_marker(buf@, code, from as int) is None,
        },
{
    let mut i: usize = from;
    while i < buf.len() && buf.len() - i >= 2
        invariant
            from <= i,
            forall|j: int| from <= j < i ==> !#[trigger] marker_at(buf@, code, j),
        decreases buf.len() - i,
    {
        if buf[i] == 0xFF && buf[i + 1] == code {
            proof {
                assert(marker_at(buf@, code, i as int));
                lemma_first_marker_is(buf@, code, from as int, i as int);
            }
            return Some(i);
        }
        i = i + 1;
    }
    assert(no_marker(buf@, code, from as int));
    None
}

/// Extracts the complete JPEG frames of `buf`; the second result is what has to stand in front of
/// the next chunk.
pub fn extract_jpeg_frames(buf: &[u8]) -> (res: (Vec<Vec<u8>>, Vec<u8>))
    ensures
        res.0@.map_values(|f: Vec<u8>| f@) == frames_of(buf@),
        res.1@ == rest_of(buf@),
{
    let mut frames: Vec<Vec<u8>> = Vec::new();
    let mut at: usize = 0;
    let ghost view = |f: Vec<u8>| f@;
    proof {
        assert(buf@.skip(0) =~= buf@);
        assert(frames@.map_values(view) + frames_of(buf@) =~= frames_of(buf@));
    }
    loop
        invariant
            at <= buf@.len(),
            view == (|f: Vec<u8>| f@),
            frames@.map_values(view) + frames_of(buf@.skip(at as int)) == frames_of(buf@),
            rest_of(buf@.skip(at as int)) == rest_of(buf@),
        decreases buf@.len() - at,
    {
        let remaining: &[u8] = vstd::slice::slice_subrange(buf, at, buf.len());
        let ghost r = remaining@;
        assert(r =~= buf@.skip(at as int));
        let start: usize = match find_marker(remaining, START_OF_IMAGE, 0) {
            Some(i) => i,
            None => {
                assert(frames@.map_values(view) =~= frames_of(buf@));
                return (frames, vstd::slice::slice_to_vec(remaining));
            },
        };
        let stop: usize = match find_marker(remaining, END_OF_IMAGE, start + 2) {
            Some(i) => i + 2,
            None => {
                assert(frames@.map_values(view) =~= frames_of(buf@));
                let tail: &[u8] = vstd::slice::slice_subrange(remaining, start, remaining.len());
                assert(tail@ =~= r.skip(start as int));
                return (frames, vstd::slice::slice_to_vec(tail));
            },
        };
        let frame: Vec<u8> = vstd::slice::slice_to_vec(
            vstd::slice::slice_subrange(remaining, start, stop),
        );
        let ghost before = frames@;
        frames.push(frame);
        proof {
            assert(first_frame(r) == Some((start as int, stop as int)));
            assert(r.skip(stop as int) =~= buf@.skip(at + stop));
            assert(frames@.map_values(view) =~= before.map_values(view).push(
                r.subrange(start as int, stop as int),
            ));
            assert(frames@.map_values(view) + frames_of(r.skip(stop as int))
                =~= before.map_values(view) + frames_of(r));
        }
        at = at + stop;
    }
}

/// Reassembles frames from the chunks of a Motion-JPEG stream and numbers them from 1.
pub struct MjpegStream {
    /// Bytes behind the last complete frame.
    pub pending: Vec<u8>,
    /// Number of the last frame that was handed out.
    pub seq: u64,
}

/// What of the bytes `s` stays pending: nothing when it has grown beyond [`MAX_PENDING`].
pub open spec fn pending_after(s: Seq<u8>) -> Seq<u8> {
    if rest_of(s).len() > MAX_PENDING {
        Seq::empty()
    } else {
        rest_of(s)
    }
}

/// The frames `frames` with the numbers that follow `seq`.
pub open spec fn numbered(frames: Seq<Seq<u8>>, seq: int) -> Seq<(Seq<u8>, int)> {
    Seq::new(frames.len(), |i: int| (frames[i], seq + 1 + i))
}

impl MjpegStream {
    /// The pending bytes stay within [`MAX_PENDING`].
    pub open spec fn wf(&self) -> bool {
        self.pending@.len() <= MAX_PENDING
    }

    /// A stream of which nothing has been read.
    pub fn new() -> (res: MjpegStream)
        ensures
            res.wf(),
            res.pending@ == Seq::<u8>::empty(),
            res.seq == 0,
    {
        MjpegStream { pending: Vec::new(), seq: 0 }
    }

    /// Takes the next chunk of the stream; gives the frames that it completes, each with its
    /// number.
    pub fn feed(&mut self, chunk: &[u8]) -> (res: Vec<(Vec<u8>, u64)>)
        requires
            old(self).wf(),
            old(self).pending@.len() + chunk@.len() <= usize::MAX,
            old(self).seq + frames_of(old(self).pending@ + chunk@).len() <= u64::MAX,
        ensures
            final(self).wf(),
            final(self).pending@ == pending_after(old(self).pending@ + chunk@),
            final(self).seq == old(self).seq + frames_of(old(self).pending@ + chunk@).len(),
            res@.map_values(|f: (Vec<u8>, u64)| (f.0@, f.1 as int)) == numbered(
                frames_of(old(self).pending@ + chunk@),
                old(self).seq as int,
            ),
            forall|i: int|
                0 <= i < res@.len() ==> (#[trigger] res@[i]).0@.len() <= MAX_PENDING + chunk@.len(),
    {
        self.pending.extend_from_slice(chunk);
        let ghost all = old(self).pending@ + chunk@;
        assert(self.pending@ =~= all);
        let (frames, rest) = extract_jpeg_frames(self.pending.as_slice());
        let ghost found = frames@;
        let ghost view = |f: Vec<u8>| f@;
        assert(found.map_values(view) == frames_of(all));
        if rest.len() > MAX_PENDING {
            self.pending = Vec::new();
        } else {
            self.pending = rest;
        }
        let mut out: Vec<(Vec<u8>, u64)> = Vec::new();
        let ghost start = self.seq;
        for frame in it: frames
            invariant
                start + found.len() <= u64::MAX,
                it.seq() == found,
                out@.len() == it.index(),
                self.seq == start + it.index(),
                self.pending@ == pending_after(all),
                forall|i: int|
                    0 <= i < out@.len() ==> (#[trigger] out@[i]).0 == found[i] && out@[i].1 == start + 1
                        + i,
        {
            self.seq = self.seq + 1;
            out.push((frame, self.seq));
        }
        proof {
            let got = out@.map_values(|f: (Vec<u8>, u64)| (f.0@, f.1 as int));
            assert(found.map_values(view).len() == found.len());
            assert forall|i: int| 0 <= i < got.len() implies got[i] == numbered(
                frames_of(all),
                start as int,
            )[i] by {
                assert(found.map_values(view)[i] == found[i]@);
            }
            assert(got =~= numbered(frames_of(all), start as int));
            assert forall|i: int| 0 <= i < out@.len() implies (#[trigger] out@[i]).0@.len()
                <= MAX_PENDING + chunk@.len() by {
                assert(got[i].0 == frames_of(all)[i]);
                lemma_frame_fits(all, i);
            }
        }
        out
    }
}

/// `f` is one whole frame: it begins with a start-of-image marker and the first end-of-image marker
/// behind that ends it.
pub open spec fn is_frame(f: Seq<u8>) -> bool {
    first_frame(f) == Some((0int, f.len() as int))
}

/// A marker of `s` at `i` is one of any longer sequence that begins with `s`.
proof fn lemma_marker_prefix(s: Seq<u8>, t: Seq<u8>, code: u8, i: int)
    requires
        i + 1 < s.len(),
    ensures
        marker_at(s + t, code, i) == marker_at(s, code, i),
{
}

/// The first marker of `s` stays the first when bytes follow.
proof fn lemma_first_marker_extends(s: Seq<u8>, t: Seq<u8>, code: u8, from: int)
    requires
        first_marker(s, code, from) is Some,
    ensures
        first_marker(s + t, code, from) == first_marker(s, code, from),
{
    lemma_first_marker(s, code, from);
    let i = first_marker(s, code, from)->0;
    assert(is_first_marker(s + t, code, from, i)) by {
        lemma_marker_prefix(s, t, code, i);
        assert forall|j: int| from <= j < i implies !#[trigger] marker_at(s + t, code, j) by {
            lemma_marker_prefix(s, t, code, j);
            assert(!marker_at(s, code, j));
        }
    }
    lemma_first_marker_is(s + t, code, from, i);
}

/// Bytes dropped in front of `from` move the first marker by as many places.
proof fn lemma_first_marker_shifts(s: Seq<u8>, code: u8, cut: int, from: int)
    requires
        0 <= cut <= from,
        cut <= s.len(),
    ensures
        first_marker(s.skip(cut), code, from - cut) == match first_marker(s, code, from) {
            Some(i) => Some(i - cut),
            None => None::<int>,
        },
{
    let r = s.skip(cut);
    assert forall|j: int| cut <= j implies marker_at(s, code, j) == #[trigger] marker_at(
        r,
        code,
        j - cut,
    ) by {}
    lemma_first_marker(s, code, from);
    match first_marker(s, code, from) {
        Some(i) => {
            assert(marker_at(r, code, i - cut));
            assert forall|j: int| from - cut <= j < i - cut implies !#[trigger] marker_at(
                r,
                code,
                j,
            ) by {
                assert(!marker_at(s, code, j + cut));
                assert(marker_at(s, code, j + cut) == marker_at(r, code, (j + cut) - cut));
            }
            assert(is_first_marker(r, code, from - cut, i - cut));
            lemma_first_marker_is(r, code, from - cut, i - cut);
        },
        None => {
            assert forall|j: int| from - cut <= j implies !#[trigger] marker_at(r, code, j) by {
                assert(!marker_at(s, code, j + cut));
                assert(marker_at(s, code, j + cut) == marker_at(r, code, (j + cut) - cut));
            }
        },
    }
}

/// Dropping the bytes in front of the first start-of-image marker drops no frame.
proof fn lemma_drop_before_start(s: Seq<u8>)
    requires
        first_marker(s, START_OF_IMAGE, 0) is Some,
    ensures
        ({
            let start = first_marker(s, START_OF_IMAGE, 0)->0;
            &&& 0 <= start <= s.len() - 2
            &&& first_marker(s.skip(start), START_OF_IMAGE, 0) == Some(0int)
            &&& frames_of(s.skip(start)) == frames_of(s)
            &&& rest_of(s.skip(start)) == rest_of(s)
        }),
{
    lemma_first_marker(s, START_OF_IMAGE, 0);
    let start = first_marker(s, START_OF_IMAGE, 0)->0;
    let r = s.skip(start);
    assert(marker_at(s, START_OF_IMAGE, start));
    assert(is_first_marker(r, START_OF_IMAGE, 0, 0));
    lemma_first_marker_is(r, START_OF_IMAGE, 0, 0);
    lemma_first_marker_shifts(s, END_OF_IMAGE, start, start + 2);
    match first_marker(s, END_OF_IMAGE, start + 2) {
        Some(stop) => {
            lemma_first_marker(s, END_OF_IMAGE, start + 2);
            assert(r.skip(stop + 2 - start) =~= s.skip(stop + 2));
            assert(r.subrange(0, stop + 2 - start) =~= s.subrange(start, stop + 2));
        },
        None => {
            assert(r.skip(0) =~= r);
        },
    }
}

/// Where a chunk ends makes no difference: reading `a` and then what is left of it together with
/// `b` finds the frames, and leaves the rest, of `a` and `b` read at once.
pub proof fn law_chunks_do_not_matter(a: Seq<u8>, b: Seq<u8>)
    ensures
        frames_of(a + b) == frames_of(a) + frames_of(rest_of(a) + b),
        rest_of(a + b) == rest_of(rest_of(a) + b),
    decreases a.len(),
{
    match first_frame(a) {
        Some((start, stop)) => {
            lemma_first_marker(a, START_OF_IMAGE, 0);
            lemma_first_marker(a, END_OF_IMAGE, start + 2);
            lemma_first_marker_extends(a, b, START_OF_IMAGE, 0);
            lemma_first_marker_extends(a, b, END_OF_IMAGE, start + 2);
            assert((a + b).skip(stop) =~= a.skip(stop) + b);
            assert((a + b).subrange(start, stop) =~= a.subrange(start, stop));
            law_chunks_do_not_matter(a.skip(stop), b);
            assert(frames_of(a + b) =~= frames_of(a) + frames_of(rest_of(a) + b));
        },
        None => match first_marker(a, START_OF_IMAGE, 0) {
            None => {
                assert(frames_of(a) + frames_of(a + b) =~= frames_of(a + b));
            },
            Some(start) => {
                lemma_first_marker_extends(a, b, START_OF_IMAGE, 0);
                lemma_drop_before_start(a + b);
                lemma_first_marker(a, START_OF_IMAGE, 0);
                assert((a + b).skip(start) =~= a.skip(start) + b);
                assert(frames_of(a) + frames_of(a + b) =~= frames_of(a + b));
            },
        },
    }
}

/// What is kept holds no complete frame, and keeping it once more changes nothing.
pub proof fn law_rest_holds_no_frame(s: Seq<u8>)
    ensures
        frames_of(rest_of(s)) == Seq::<Seq<u8>>::empty(),
        rest_of(rest_of(s)) == rest_of(s),
    decreases s.len(),
{
    match first_frame(s) {
        Some((start, stop)) => {
            lemma_first_marker(s, START_OF_IMAGE, 0);
            lemma_first_marker(s, END_OF_IMAGE, start + 2);
            law_rest_holds_no_frame(s.skip(stop));
        },
        None => if first_marker(s, START_OF_IMAGE, 0) is Some {
            lemma_drop_before_start(s);
        },
    }
}

/// Every frame that is found is one whole frame, and its bytes stand together in the input.
pub proof fn law_frames_are_whole(s: Seq<u8>, i: int)
    requires
        0 <= i < frames_of(s).len(),
    ensures
        is_frame(frames_of(s)[i]),
        exists|from: int, to: int|
            0 <= from <= to <= s.len() && frames_of(s)[i] == #[trigger] s.subrange(from, to),
    decreases s.len(),
{
    let (start, stop) = first_frame(s)->0;
    lemma_first_marker(s, START_OF_IMAGE, 0);
    lemma_first_marker(s, END_OF_IMAGE, start + 2);
    if i == 0 {
        let f = s.subrange(start, stop);
        assert(frames_of(s)[0] == f);
        assert(marker_at(f, START_OF_IMAGE, 0));
        assert(is_first_marker(f, START_OF_IMAGE, 0, 0));
        lemma_first_marker_is(f, START_OF_IMAGE, 0, 0);
        let n = stop - start;
        assert(marker_at(s, END_OF_IMAGE, stop - 2));
        assert(marker_at(f, END_OF_IMAGE, n - 2));
        assert forall|j: int| 2 <= j < n - 2 implies !#[trigger] marker_at(f, END_OF_IMAGE, j) by {
            assert(!marker_at(s, END_OF_IMAGE, start + j));
        }
        assert(is_first_marker(f, END_OF_IMAGE, 2, n - 2));
        lemma_first_marker_is(f, END_OF_IMAGE, 2, n - 2);
    } else {
        let r = s.skip(stop);
        assert(frames_of(s)[i] == frames_of(r)[i - 1]);
        law_frames_are_whole(r, i - 1);
        let (from, to) = choose|from: int, to: int|
            0 <= from <= to <= r.len() && frames_of(r)[i - 1] == #[trigger] r.subrange(from, to);
        assert(s.subrange(from + stop, to + stop) =~= r.subrange(from, to));
    }
}

/// A whole frame in front is the first frame that is found.
proof fn lemma_frame_in_front_is_found(f: Seq<u8>, t: Seq<u8>)
    requires
        is_frame(f),
    ensures
        first_frame(f + t) == Some((0int, f.len() as int)),
        f.len() > 0,
{
    lemma_first_marker(f, START_OF_IMAGE, 0);
    lemma_first_marker(f, END_OF_IMAGE, 2);
    lemma_first_marker_extends(f, t, START_OF_IMAGE, 0);
    lemma_first_marker_extends(f, t, END_OF_IMAGE, 2);
}

/// A whole frame in front is read first, and what follows it as if it stood alone.
proof fn lemma_frame_in_front(f: Seq<u8>, t: Seq<u8>)
    requires
        is_frame(f),
    ensures
        frames_of(f + t) == seq![f] + frames_of(t),
        rest_of(f + t) == rest_of(t),
{
    lemma_frame_in_front_is_found(f, t);
    assert((f + t).subrange(0, f.len() as int) =~= f);
    assert((f + t).skip(f.len() as int) =~= t);
}

/// No bytes hold no frame.
proof fn lemma_nothing_to_read(none: Seq<u8>)
    requires
        none.len() == 0,
    ensures
        frames_of(none) == Seq::<Seq<u8>>::empty(),
        rest_of(none) == Seq::<u8>::empty(),
{
    assert(no_marker(none, START_OF_IMAGE, 0));
    assert(rest_of(none) =~= Seq::<u8>::empty());
}

/// Frames written one behind the other are read back as they were written, and nothing is left.
pub proof fn law_written_frames_are_read_back(frames: Seq<Seq<u8>>)
    requires
        forall|i: int| 0 <= i < frames.len() ==> is_frame(#[trigger] frames[i]),
    ensures
        frames_of(frames.flatten()) == frames,
        rest_of(frames.flatten()) == Seq::<u8>::empty(),
    decreases frames.len(),
{
    if frames.len() == 0 {
        lemma_nothing_to_read(frames.flatten());
        assert(frames =~= Seq::<Seq<u8>>::empty());
    } else {
        let tail = frames.drop_first();
        assert forall|i: int| 0 <= i < tail.len() implies is_frame(#[trigger] tail[i]) by {
            assert(tail[i] == frames[i + 1]);
        }
        law_written_frames_are_read_back(tail);
        lemma_frame_in_front(frames[0], tail.flatten());
        assert(seq![frames[0]] + tail =~= frames);
    }
}

/// Feeding a stream `a` and then `b` hands out the frames, with the numbers, and leaves the bytes
/// pending, that feeding it `a` and `b` as one chunk does, unless an unfinished frame was given up
/// in between.
pub proof fn law_feeding_in_chunks(pending: Seq<u8>, seq: int, a: Seq<u8>, b: Seq<u8>)
    requires
        rest_of(pending + a).len() <= MAX_PENDING,
    ensures
        ({
            let first = frames_of(pending + a);
            let kept = pending_after(pending + a);
            let second = frames_of(kept + b);
            &&& numbered(first, seq) + numbered(second, seq + first.len()) == numbered(
                frames_of(pending + (a + b)),
                seq,
            )
            &&& pending_after(kept + b) == pending_after(pending + (a + b))
        }),
{
    assert(pending + (a + b) =~= (pending + a) + b);
    law_chunks_do_not_matter(pending + a, b);
    let first = frames_of(pending + a);
    let second = frames_of(rest_of(pending + a) + b);
    assert(numbered(first, seq) + numbered(second, seq + first.len()) =~= numbered(
        first + second,
        seq,
    ));
}

/// What stays pending is at most [`MAX_PENDING`] bytes: the whole rest where it is no longer than
/// that, and nothing of a longer one.
pub proof fn law_a_long_rest_is_given_up(s: Seq<u8>)
    ensures
        rest_of(s).len() <= MAX_PENDING ==> pending_after(s) == rest_of(s),
        rest_of(s).len() > MAX_PENDING ==> pending_after(s) == Seq::<u8>::empty(),
        pending_after(s).len() <= MAX_PENDING,
{
}

/// A frame is no longer than the bytes that it is found in.
proof fn lemma_frame_fits(s: Seq<u8>, i: int)
    requires
        0 <= i < frames_of(s).len(),
    ensures
        frames_of(s)[i].len() <= s.len(),
{
    law_frames_are_whole(s, i);
    let (from, to) = choose|from: int, to: int|
        0 <= from <= to <= s.len() && frames_of(s)[i] == #[trigger] s.subrange(from, to);
    assert(s.subrange(from, to).len() <= s.len());
}

/// No frame that is handed out is longer than [`MAX_PENDING`] and the chunk that completes it, also
/// where the rest behind the frames is given up.
pub proof fn law_frames_are_bounded(before: Seq<u8>, chunk: Seq<u8>, i: int)
    requires
        0 <= i < frames_of(pending_after(before) + chunk).len(),
    ensures
        frames_of(pending_after(before) + chunk)[i].len() <= MAX_PENDING + chunk.len(),
{
    lemma_frame_fits(pending_after(before) + chunk, i);
}

/// A frame is what begins with `FF D8`, ends with `FF D9` behind that, and has no `FF D9` before.
pub proof fn law_what_a_frame_is(f: Seq<u8>)
    ensures
        is_frame(f) <==> {
            &&& f.len() >= 4
            &&& f[0] == 0xFFu8 && f[1] == 0xD8u8
            &&& f[f.len() - 2] == 0xFFu8 && f[f.len() - 1] == 0xD9u8
            &&& forall|j: int| 2 <= j < f.len() - 2 ==> !(#[trigger] f[j] == 0xFFu8 && f[j + 1] == 0xD9u8)
        },
{
    let n = f.len() as int;
    lemma_first_marker(f, START_OF_IMAGE, 0);
    lemma_first_marker(f, END_OF_IMAGE, 2);
    if is_frame(f) {
        assert(marker_at(f, START_OF_IMAGE, 0));
        assert(is_first_marker(f, END_OF_IMAGE, 2, n - 2));
        assert forall|j: int| 2 <= j < n - 2 implies !(#[trigger] f[j] == 0xFFu8 && f[j + 1]
            == 0xD9u8) by {
            assert(!marker_at(f, END_OF_IMAGE, j));
        }
    }
    if n >= 4 && f[0] == 0xFFu8 && f[1] == 0xD8u8 && f[n - 2] == 0xFFu8 && f[n - 1] == 0xD9u8 && (
    forall|j: int| 2 <= j < n - 2 ==> !(#[trigger] f[j] == 0xFFu8 && f[j + 1] == 0xD9u8)) {
        assert(marker_at(f, START_OF_IMAGE, 0));
        assert(is_first_marker(f, START_OF_IMAGE, 0, 0));
        lemma_first_marker_is(f, START_OF_IMAGE, 0, 0);
        assert(marker_at(f, END_OF_IMAGE, n - 2));
        assert forall|j: int| 2 <= j < n - 2 implies !#[trigger] marker_at(f, END_OF_IMAGE, j) by {
            assert(!(f[j] == 0xFFu8 && f[j + 1] == 0xD9u8));
        }
        assert(is_first_marker(f, END_OF_IMAGE, 2, n - 2));
        lemma_first_marker_is(f, END_OF_IMAGE, 2, n - 2);
    }
}

/// Bytes in front of a frame in which none begins are skipped: the frame is handed out, and what
/// follows it is read as if it stood alone.
pub proof fn law_frame_behind_other_bytes(g: Seq<u8>, f: Seq<u8>, t: Seq<u8>)
    requires
        is_frame(f),
        forall|j: int| 0 <= j < g.len() ==> !(#[trigger] (g + f)[j] == 0xFFu8 && (g + f)[j + 1] == 0xD8u8),
    ensures
        frames_of(g + f + t) == seq![f] + frames_of(t),
        rest_of(g + f + t) == rest_of(t),
{
    let s = g + f + t;
    lemma_frame_in_front_is_found(f, t);
    lemma_first_marker(f, START_OF_IMAGE, 0);
    assert(marker_at(f, START_OF_IMAGE, 0));
    assert forall|j: int| 0 <= j < g.len() implies !#[trigger] marker_at(s, START_OF_IMAGE, j) by {
        assert(s[j] == (g + f)[j] && s[j + 1] == (g + f)[j + 1]);
    }
    assert(s[g.len() as int] == f[0] && s[g.len() as int + 1] == f[1]);
    assert(is_first_marker(s, START_OF_IMAGE, 0, g.len() as int));
    lemma_first_marker_is(s, START_OF_IMAGE, 0, g.len() as int);
    lemma_drop_before_start(s);
    assert(s.skip(g.len() as int) =~= f + t);
    lemma_frame_in_front(f, t);
}

/// Bytes in which a frame begins and does not end give no frame; they are kept from its first byte on.
/// Bytes in which none begins give none either, and all of them are kept.
pub proof fn law_unfinished_frame_is_kept(s: Seq<u8>, start: int)
    ensures
        (forall|j: int| 0 <= j < s.len() - 1 ==> !(#[trigger] s[j] == 0xFFu8 && s[j + 1] == 0xD8u8))
            ==> frames_of(s) == Seq::<Seq<u8>>::empty() && rest_of(s) == s,
        0 <= start < s.len() - 1 && s[start] == 0xFFu8 && s[start + 1] == 0xD8u8 && (forall|j: int|
            0 <= j < start ==> !(#[trigger] s[j] == 0xFFu8 && s[j + 1] == 0xD8u8)) && (forall|j: int|
            start + 2 <= j < s.len() - 1 ==> !(#[trigger] s[j] == 0xFFu8 && s[j + 1] == 0xD9u8))
            ==> frames_of(s) == Seq::<Seq<u8>>::empty() && rest_of(s) == s.skip(start),
{
    if forall|j: int| 0 <= j < s.len() - 1 ==> !(#[trigger] s[j] == 0xFFu8 && s[j + 1] == 0xD8u8) {
        assert forall|j: int| 0 <= j implies !#[trigger] marker_at(s, START_OF_IMAGE, j) by {
            if j < s.len() - 1 {
                assert(!(s[j] == 0xFFu8 && s[j + 1] == 0xD8u8));
            }
        }
        assert(no_marker(s, START_OF_IMAGE, 0));
    }
    if 0 <= start < s.len() - 1 && s[start] == 0xFFu8 && s[start + 1] == 0xD8u8 && (forall|j: int|
        0 <= j < start ==> !(#[trigger] s[j] == 0xFFu8 && s[j + 1] == 0xD8u8)) && (forall|j: int|
        start + 2 <= j < s.len() - 1 ==> !(#[trigger] s[j] == 0xFFu8 && s[j + 1] == 0xD9u8)) {
        assert(marker_at(s, START_OF_IMAGE, start));
        assert forall|j: int| 0 <= j < start implies !#[trigger] marker_at(s, START_OF_IMAGE, j) by {
            assert(!(s[j] == 0xFFu8 && s[j + 1] == 0xD8u8));
        }
        assert(is_first_marker(s, START_OF_IMAGE, 0, start));
        lemma_first_marker_is(s, START_OF_IMAGE, 0, start);
        assert forall|j: int| start + 2 <= j implies !#[trigger] marker_at(s, END_OF_IMAGE, j) by {
            if j < s.len() - 1 {
                assert(!(s[j] == 0xFFu8 && s[j + 1] == 0xD9u8));
            }
        }
        assert(no_marker(s, END_OF_IMAGE, start + 2));
    }
}

/// The frames keep their order and get the numbers that follow; at most 5 MiB are kept of an unfinished
/// one.
pub proof fn law_frames_are_numbered_on(frames: Seq<Seq<u8>>, seq: int, i: int)
    requires
        0 <= i < frames.len(),
    ensures
        numbered(frames, seq).len() == frames.len(),
        numbered(frames, seq)[i].0 == frames[i],
        numbered(frames, seq)[i].1 == seq + 1 + i,
        MAX_PENDING == 5 * 1024 * 1024,
{
}

} // verus!
