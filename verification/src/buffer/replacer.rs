use crate::common::count::count_true;
use crate::common::count::lemma_count_bounds;
use crate::common::count::lemma_count_update;
use crate::common::rid::FrameId;
use crate::error::BustubxError;
use vstd::prelude::*;

verus! {

/// What the replacer knows of one frame: the times of its latest accesses,
/// oldest first, and whether it may be evicted. A frame without any recorded
/// access is not tracked.
pub struct LRUKNode {
    history: Vec<u64>,
    is_evictable: bool,
}

/// The LRU-K eviction policy over the frames `0..capacity`.
pub struct LRUKReplacer {
    current_size: usize,
    replacer_size: usize,
    k: usize,
    nodes: Vec<LRUKNode>,
    current_timestamp: u64,
}

/// The logical time after `clock`: one more, until the clock can count no
/// further and stands still.
pub open spec fn next_tick(clock: u64) -> u64 {
    if clock < u64::MAX {
        (clock + 1) as u64
    } else {
        clock
    }
}

/// The last `k` entries of a history.
pub open spec fn latest(history: Seq<u64>, k: nat) -> Seq<u64> {
    if history.len() > k {
        history.subrange(history.len() - k, history.len() as int)
    } else {
        history
    }
}

impl LRUKReplacer {
    spec fn flags(&self) -> Seq<bool> {
        Seq::new(self.nodes@.len(), |f: int| self.nodes@[f].is_evictable)
    }

    pub closed spec fn wf(&self) -> bool {
        &&& self.k >= 1
        &&& self.nodes@.len() == self.replacer_size
        &&& self.current_size == count_true(self.flags())
        &&& forall|f: int|
            0 <= f < self.nodes@.len() ==> {
                &&& (#[trigger] self.nodes@[f]).history@.len() <= self.k
                &&& self.nodes@[f].is_evictable ==> self.nodes@[f].history@.len() > 0
            }
    }

    /// Number of frames the replacer serves.
    pub closed spec fn capacity(&self) -> nat {
        self.replacer_size as nat
    }

    /// The `K` of LRU-K.
    pub closed spec fn horizon(&self) -> nat {
        self.k as nat
    }

    /// The logical time of the next access.
    pub closed spec fn clock(&self) -> u64 {
        self.current_timestamp
    }

    /// The recorded access times of a frame, oldest first; empty where the
    /// frame is not tracked.
    pub closed spec fn history(&self, frame_id: FrameId) -> Seq<u64> {
        if frame_id < self.nodes@.len() {
            self.nodes@[frame_id as int].history@
        } else {
            Seq::empty()
        }
    }

    /// Whether the frame is a candidate for eviction.
    pub closed spec fn evictable(&self, frame_id: FrameId) -> bool {
        frame_id < self.nodes@.len() && self.nodes@[frame_id as int].is_evictable
    }

    /// Number of candidates for eviction.
    pub closed spec fn size_spec(&self) -> nat {
        count_true(self.flags())
    }

    /// Whether the frame has a backward K-distance that is finite: it has been
    /// accessed `K` times.
    pub open spec fn seasoned(&self, frame_id: FrameId) -> bool {
        self.history(frame_id).len() >= self.horizon()
    }

    /// Whether `f` is evicted in preference to `g`. A frame with fewer than `K`
    /// accesses goes before one with `K`; within either group the one whose
    /// oldest recorded access is older goes first: among frames with `K`
    /// accesses that is the largest backward K-distance, among the others plain
    /// least-recently-used. The frame number settles what is left.
    pub open spec fn goes_before(&self, f: FrameId, g: FrameId) -> bool {
        if self.seasoned(f) != self.seasoned(g) {
            !self.seasoned(f)
        } else {
            self.history(f)[0] < self.history(g)[0] || (self.history(f)[0] == self.history(g)[0]
                && f < g)
        }
    }

    /// Whether `f` is the frame to evict: a candidate that goes before every
    /// other candidate.
    pub open spec fn is_victim(&self, f: FrameId) -> bool {
        self.evictable(f) && forall|g: FrameId|
            #[trigger] self.evictable(g) && g != f ==> self.goes_before(f, g)
    }

    /// Candidates are frames of the replacer that have been accessed.
    pub proof fn lemma_evictable(&self, frame_id: FrameId)
        requires
            self.wf(),
            self.evictable(frame_id),
        ensures
            frame_id < self.capacity(),
            self.history(frame_id).len() > 0,
    {
    }

    /// Histories hold at most `K` entries, and only frames of the replacer
    /// have one.
    pub proof fn lemma_history(&self, frame_id: FrameId)
        requires
            self.wf(),
        ensures
            self.history(frame_id).len() <= self.horizon(),
            frame_id >= self.capacity() ==> self.history(frame_id).len() == 0,
            self.horizon() >= 1,
    {
    }

    /// There is at most one frame to evict.
    pub proof fn lemma_victim_unique(&self, f: FrameId, g: FrameId)
        requires
            self.is_victim(f),
            self.is_victim(g),
        ensures
            f == g,
    {
    }

    /// Where there is a candidate, there is a frame to evict.
    pub proof fn lemma_some_victim(&self)
        requires
            self.wf(),
            self.size_spec() > 0,
        ensures
            exists|f: FrameId| self.is_victim(f),
    {
        lemma_count_bounds(self.flags());
        let c = choose|c: int| 0 <= c < self.flags().len() && self.flags()[c];
        self.lemma_best_upto(self.nodes@.len() as int, c as FrameId);
        let n = self.nodes@.len();
        let b = choose|b: FrameId|
            b < n && self.evictable(b) && forall|g: FrameId|
                g < n && #[trigger] self.evictable(g) && g != b ==> self.goes_before(b, g);
        assert(self.is_victim(b));
    }

    proof fn lemma_best_upto(&self, n: int, c: FrameId)
        requires
            self.wf(),
            0 <= c < n <= self.nodes@.len(),
            self.evictable(c),
        ensures
            exists|b: FrameId|
                b < n && self.evictable(b) && forall|g: FrameId|
                    g < n && #[trigger] self.evictable(g) && g != b ==> self.goes_before(b, g),
        decreases n,
    {
        let last = (n - 1) as FrameId;
        if exists|c0: FrameId| c0 < n - 1 && self.evictable(c0) {
            let c0 = choose|c0: FrameId| c0 < n - 1 && self.evictable(c0);
            self.lemma_best_upto(n - 1, c0);
            let b0 = choose|b: FrameId|
                b < n - 1 && self.evictable(b) && forall|g: FrameId|
                    g < n - 1 && #[trigger] self.evictable(g) && g != b ==> self.goes_before(b, g);
            if self.evictable(last) && self.goes_before(last, b0) {
                assert(forall|g: FrameId|
                    g < n && #[trigger] self.evictable(g) && g != last ==> self.goes_before(last, g));
            } else {
                assert(forall|g: FrameId|
                    g < n && #[trigger] self.evictable(g) && g != b0 ==> self.goes_before(b0, g));
            }
        } else {
            assert(c == last);
            assert(forall|g: FrameId|
                g < n && #[trigger] self.evictable(g) && g != last ==> self.goes_before(last, g));
        }
    }

    /// The size is the number of candidates, however they are listed.
    pub proof fn lemma_size_counts(&self, flags: Seq<bool>)
        requires
            self.wf(),
            flags.len() == self.capacity(),
            forall|f: int| 0 <= f < flags.len() ==> flags[f] == self.evictable(f as FrameId),
        ensures
            self.size_spec() == count_true(flags),
            self.size_spec() <= self.capacity(),
            self.size_spec() == 0 <==> (forall|f: FrameId| !self.evictable(f)),
    {
        assert(flags =~= self.flags());
        lemma_count_bounds(flags);
        if self.size_spec() == 0 {
            assert forall|f: FrameId| !self.evictable(f) by {
                if f < flags.len() {
                    assert(!flags[f as int]);
                }
            }
        }
    }

    /// A replacer over `num_frames` frames that knows no access yet.
    pub fn new(num_frames: usize, k: usize) -> (replacer: LRUKReplacer)
        requires
            k >= 1,
        ensures
            replacer.wf(),
            replacer.capacity() == num_frames,
            replacer.horizon() == k,
            replacer.clock() == 0,
            replacer.size_spec() == 0,
            forall|f: FrameId| !#[trigger] replacer.evictable(f),
            forall|f: FrameId| (#[trigger] replacer.history(f)).len() == 0,
    {
        let mut nodes: Vec<LRUKNode> = Vec::new();
        let mut i: usize = 0;
        while i < num_frames
            invariant
                i <= num_frames,
                nodes@.len() == i,
                forall|f: int|
                    0 <= f < i ==> !(#[trigger] nodes@[f]).is_evictable && nodes@[f].history@.len()
                        == 0,
            decreases num_frames - i,
        {
            nodes.push(LRUKNode { history: Vec::new(), is_evictable: false });
            i += 1;
        }
        let replacer = LRUKReplacer {
            current_size: 0,
            replacer_size: num_frames,
            k,
            nodes,
            current_timestamp: 0,
        };
        proof {
            lemma_count_bounds(replacer.flags());
        }
        replacer
    }

    fn copy_history(&self, frame_id: FrameId) -> (out: Vec<u64>)
        requires
            frame_id < self.nodes@.len(),
        ensures
            out@ == self.nodes@[frame_id as int].history@,
    {
        let mut out: Vec<u64> = Vec::new();
        let mut i: usize = 0;
        while i < self.nodes[frame_id].history.len()
            invariant
                frame_id < self.nodes@.len(),
                i <= self.nodes@[frame_id as int].history@.len(),
                out@ == self.nodes@[frame_id as int].history@.subrange(0, i as int),
            decreases self.nodes@[frame_id as int].history@.len() - i,
        {
            out.push(self.nodes[frame_id].history[i]);
            assert(out@ =~= self.nodes@[frame_id as int].history@.subrange(0, i + 1));
            i += 1;
        }
        assert(out@ =~= self.nodes@[frame_id as int].history@);
        out
    }

    /// Records an access to the frame at the current logical time, and
    /// advances the clock. Only the latest `K` accesses are kept.
    /// Fails only for a frame that the replacer does not serve.
    pub fn record_access(&mut self, frame_id: FrameId) -> (res: Result<(), BustubxError>)
        requires
            old(self).wf(),
        ensures
            final(self).wf(),
            final(self).capacity() == old(self).capacity(),
            final(self).horizon() == old(self).horizon(),
            final(self).size_spec() == old(self).size_spec(),
            forall|f: FrameId| final(self).evictable(f) == old(self).evictable(f),
            forall|f: FrameId| f != frame_id ==> final(self).history(f) == old(self).history(f),
            frame_id >= old(self).capacity() ==> res == Err::<(), BustubxError>(
                BustubxError::InvalidFrame,
            ),
            frame_id < old(self).capacity() ==> res is Ok,
            res is Ok ==> final(self).clock() == next_tick(old(self).clock()) && final(self).history(
                frame_id,
            ) == latest(old(self).history(frame_id).push(old(self).clock()), old(self).horizon()),
            res is Err ==> final(self).clock() == old(self).clock() && final(self).history(frame_id)
                == old(self).history(frame_id),
    {
        if frame_id >= self.replacer_size {
            return Err(BustubxError::InvalidFrame);
        }
        let mut history = self.copy_history(frame_id);
        history.push(self.current_timestamp);
        if history.len() > self.k {
            history.remove(0);
        }
        let is_evictable = self.nodes[frame_id].is_evictable;
        let ghost old_flags = self.flags();
        self.nodes.set(frame_id, LRUKNode { history, is_evictable });
        if self.current_timestamp < u64::MAX {
            self.current_timestamp = self.current_timestamp + 1;
        }
        proof {
            assert(self.flags() =~= old_flags);
            assert(self.history(frame_id) =~= latest(
                old(self).history(frame_id).push(old(self).clock()),
                old(self).horizon(),
            ));
        }
        Ok(())
    }

    /// Makes a tracked frame a candidate for eviction, or takes it out of the
    /// candidates. A frame without recorded access stays as it is.
    pub fn set_evictable(&mut self, frame_id: FrameId, evictable: bool) -> (res: Result<
        (),
        BustubxError,
    >)
        requires
            old(self).wf(),
        ensures
            final(self).wf(),
            final(self).capacity() == old(self).capacity(),
            final(self).horizon() == old(self).horizon(),
            final(self).clock() == old(self).clock(),
            forall|f: FrameId| final(self).history(f) == old(self).history(f),
            forall|f: FrameId| f != frame_id ==> final(self).evictable(f) == old(self).evictable(f),
            frame_id >= old(self).capacity() ==> res == Err::<(), BustubxError>(
                BustubxError::InvalidFrame,
            ) && final(self).evictable(frame_id) == old(self).evictable(frame_id),
            frame_id < old(self).capacity() ==> res is Ok && final(self).evictable(frame_id) == (
            evictable && old(self).history(frame_id).len() > 0),
            final(self).size_spec() + (if old(self).evictable(frame_id) { 1nat } else { 0nat })
                == old(self).size_spec() + (if final(self).evictable(frame_id) { 1nat } else { 0nat }),
    {
        if frame_id >= self.replacer_size {
            return Err(BustubxError::InvalidFrame);
        }
        if self.nodes[frame_id].history.len() == 0 {
            return Ok(());
        }
        let was: bool = self.nodes[frame_id].is_evictable;
        if was == evictable {
            return Ok(());
        }
        let history = self.copy_history(frame_id);
        let ghost old_flags = self.flags();
        self.nodes.set(frame_id, LRUKNode { history, is_evictable: evictable });
        proof {
            assert(self.flags() =~= old_flags.update(frame_id as int, evictable));
            lemma_count_update(old_flags, frame_id as int, evictable);
            lemma_count_bounds(self.flags());
            lemma_count_bounds(old_flags);
        }
        if evictable {
            self.current_size = self.current_size + 1;
        } else {
            self.current_size = self.current_size - 1;
        }
        Ok(())
    }

    /// Forgets everything about a frame: its history, and that it was a
    /// candidate.
    pub fn remove(&mut self, frame_id: FrameId)
        requires
            old(self).wf(),
        ensures
            final(self).wf(),
            final(self).capacity() == old(self).capacity(),
            final(self).horizon() == old(self).horizon(),
            final(self).clock() == old(self).clock(),
            !final(self).evictable(frame_id),
            final(self).history(frame_id).len() == 0,
            forall|f: FrameId| f != frame_id ==> final(self).history(f) == old(self).history(f),
            forall|f: FrameId| f != frame_id ==> final(self).evictable(f) == old(self).evictable(f),
            final(self).size_spec() + (if old(self).evictable(frame_id) { 1nat } else { 0nat })
                == old(self).size_spec(),
    {
        if frame_id >= self.replacer_size {
            return ;
        }
        let was: bool = self.nodes[frame_id].is_evictable;
        let ghost old_flags = self.flags();
        self.nodes.set(frame_id, LRUKNode { history: Vec::new(), is_evictable: false });
        proof {
            assert(self.flags() =~= old_flags.update(frame_id as int, false));
            lemma_count_update(old_flags, frame_id as int, false);
            lemma_count_bounds(old_flags);
        }
        if was {
            self.current_size = self.current_size - 1;
        }
    }

    fn prefers(&self, f: FrameId, g: FrameId) -> (b: bool)
        requires
            self.wf(),
            self.evictable(f),
            self.evictable(g),
        ensures
            b == self.goes_before(f, g),
    {
        let full_f: bool = self.nodes[f].history.len() >= self.k;
        let full_g: bool = self.nodes[g].history.len() >= self.k;
        if full_f != full_g {
            !full_f
        } else {
            let first_f: u64 = self.nodes[f].history[0];
            let first_g: u64 = self.nodes[g].history[0];
            first_f < first_g || (first_f == first_g && f < g)
        }
    }

    /// Picks the candidate with the largest backward K-distance, forgets it and
    /// returns it; `None` where there is no candidate.
    pub fn evict(&mut self) -> (res: Option<FrameId>)
        requires
            old(self).wf(),
        ensures
            final(self).wf(),
            final(self).capacity() == old(self).capacity(),
            final(self).horizon() == old(self).horizon(),
            final(self).clock() == old(self).clock(),
            match res {
                Some(victim) => {
                    &&& old(self).is_victim(victim)
                    &&& !final(self).evictable(victim)
                    &&& final(self).history(victim).len() == 0
                    &&& final(self).size_spec() + 1 == old(self).size_spec()
                    &&& forall|f: FrameId|
                        f != victim ==> final(self).history(f) == old(self).history(f)
                            && final(self).evictable(f) == old(self).evictable(f)
                },
                None => {
                    &&& *final(self) == *old(self)
                    &&& forall|f: FrameId| !old(self).evictable(f)
                },
            },
    {
        let mut best: Option<FrameId> = None;
        let mut i: usize = 0;
        while i < self.replacer_size
            invariant
                i <= self.replacer_size,
                self.wf(),
                *self == *old(self),
                match best {
                    Some(b) => {
                        &&& b < i
                        &&& self.evictable(b)
                        &&& forall|g: FrameId|
                            g < i && #[trigger] self.evictable(g) && g != b ==> self.goes_before(
                                b,
                                g,
                            )
                    },
                    None => forall|g: FrameId| g < i ==> !self.evictable(g),
                },
            decreases self.replacer_size - i,
        {
            if self.nodes[i].is_evictable {
                match best {
                    Some(b) => {
                        if self.prefers(i, b) {
                            best = Some(i);
                        }
                    },
                    None => {
                        best = Some(i);
                    },
                }
            }
            i += 1;
        }
        match best {
            Some(victim) => {
                self.remove(victim);
                Some(victim)
            },
            None => None,
        }
    }

    /// Number of candidates for eviction.
    pub fn size(&self) -> (n: usize)
        requires
            self.wf(),
        ensures
            n == self.size_spec(),
    {
        self.current_size
    }
}

} // verus!
