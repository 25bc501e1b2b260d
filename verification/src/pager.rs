//! The paging state machine of the interactive viewer.
//!
//! Pages are rendered lazily, one batch of `BATCH_SIZE` pages at a time, so
//! that long documents do not have to be rendered up front.  The renderer
//! is handed in by the caller; the state machine decides which batch to
//! ask for, stores what comes back and moves the cursor.

use crate::term::{delete_images_escape, kitty_delete_all_images_escape, TermCaps};
use crate::text::{append_bytes, append_decimal, decimal};
use vstd::prelude::*;
use vstd::string::StringSliceAdditionalSpecFns;

verus! {

/// Number of pages asked for at a time.
pub const BATCH_SIZE: usize = 8;

/// The pager's state.
pub struct PagerState {
    markdown: Vec<u8>,
    caps: TermCaps,
    /// Rendered pages; a slot is `None` until its batch is loaded.
    pages: Vec<Option<Vec<u8>>>,
    current: usize,
    /// True once a batch came back with fewer than `BATCH_SIZE` pages.
    exhausted: bool,
}

/// Abstract pager state.
pub struct PagerView {
    pub pages: Seq<Option<Seq<u8>>>,
    pub current: int,
    pub exhausted: bool,
}

/// The contents of an optional page.
pub open spec fn slot_view(p: Option<Vec<u8>>) -> Option<Seq<u8>> {
    match p {
        Some(v) => Some(v@),
        None => None,
    }
}

/// The contents of a list of page slots.
pub open spec fn slots_view(s: Seq<Option<Vec<u8>>>) -> Seq<Option<Seq<u8>>> {
    Seq::new(s.len(), |i: int| slot_view(s[i]))
}

/// The contents of a list of rendered pages.
pub open spec fn batch_view(s: Seq<Vec<u8>>) -> Seq<Seq<u8>> {
    Seq::new(s.len(), |i: int| s[i]@)
}

/// `s` without its trailing empty slots.
pub open spec fn trim(s: Seq<Option<Seq<u8>>>) -> Seq<Option<Seq<u8>>>
    decreases s.len(),
{
    if s.len() > 0 && s.last() is None {
        trim(s.drop_last())
    } else {
        s
    }
}

/// The larger of two integers.
pub open spec fn max_int(a: int, b: int) -> int {
    if a >= b {
        a
    } else {
        b
    }
}

/// Slot of the first page of the batch that holds page slot `index`.
pub open spec fn batch_first(index: int) -> int {
    (index / BATCH_SIZE as int) * BATCH_SIZE as int
}

/// The pages after storing `rendered` from slot `first` on: the slot list
/// is grown to cover at least a whole batch, the rendered pages fill their
/// slots, and a short batch marks the end of the document and drops the
/// empty slots at the end.
pub open spec fn store(v: PagerView, first: int, rendered: Seq<Seq<u8>>) -> PagerView {
    let required = first + max_int(rendered.len() as int, BATCH_SIZE as int);
    let grown = if v.pages.len() < required {
        v.pages + Seq::new((required - v.pages.len()) as nat, |i: int| None::<Seq<u8>>)
    } else {
        v.pages
    };
    let filled = Seq::new(
        grown.len(),
        |i: int|
            if first <= i < first + rendered.len() {
                Some(rendered[i - first])
            } else {
                grown[i]
            },
    );
    if rendered.len() < BATCH_SIZE {
        PagerView { pages: trim(filled), current: v.current, exhausted: true }
    } else {
        PagerView { pages: filled, current: v.current, exhausted: v.exhausted }
    }
}

/// Whether the batch holding slot `index` still has to be rendered.
pub open spec fn needs_load(v: PagerView, index: int) -> bool {
    let first = batch_first(index);
    &&& !(v.exhausted && index >= v.pages.len())
    &&& !(first < v.pages.len() && v.pages[first] is Some)
}

/// A renderer that accepts every request: document, terminal, and a
/// 1-based inclusive range of pages.
pub open spec fn renders_anything<F: Fn(&Vec<u8>, &TermCaps, usize, usize) -> Vec<Vec<u8>>>(
    render: F,
) -> bool {
    forall|m: &Vec<u8>, c: &TermCaps, s: usize, e: usize| #[trigger] render.requires((m, c, s, e))
}

/// One call of `ensure_loaded`: when the batch holding slot `index` is
/// missing, the renderer is asked for that batch's pages (1-based, both
/// ends included) and whatever it returned is stored; otherwise nothing
/// changes.
pub open spec fn load_step<F: Fn(&Vec<u8>, &TermCaps, usize, usize) -> Vec<Vec<u8>>>(
    render: F,
    markdown: Vec<u8>,
    caps: TermCaps,
    pre: PagerView,
    index: int,
    post: PagerView,
) -> bool {
    if needs_load(pre, index) {
        let first = batch_first(index);
        exists|r: Vec<Vec<u8>>|
            #[trigger] render.ensures(
                (&markdown, &caps, (first + 1) as usize, (first + BATCH_SIZE) as usize),
                r,
            ) && post == store(pre, first, batch_view(r@))
    } else {
        post == pre
    }
}

/// `post` comes from `pre` by `n` calls of `ensure_loaded` at the slots
/// `probe`, `probe + BATCH_SIZE`, `probe + 2 * BATCH_SIZE`, ..., each made
/// while the end of the document was still unknown, at a slot no greater
/// than `isize::MAX`.
pub open spec fn probe_loads<F: Fn(&Vec<u8>, &TermCaps, usize, usize) -> Vec<Vec<u8>>>(
    render: F,
    markdown: Vec<u8>,
    caps: TermCaps,
    pre: PagerView,
    probe: int,
    post: PagerView,
    n: nat,
) -> bool
    decreases n,
{
    if n == 0 {
        post == pre
    } else {
        let index = probe + BATCH_SIZE * (n - 1);
        exists|mid: PagerView|
            {
                &&& probe_loads(render, markdown, caps, pre, probe, mid, (n - 1) as nat)
                &&& !mid.exhausted
                &&& 0 <= index <= isize::MAX
                &&& #[trigger] load_step(render, markdown, caps, mid, index, post)
            }
    }
}

/// The state with the cursor moved to slot `current`.
pub open spec fn at(v: PagerView, current: int) -> PagerView {
    PagerView { pages: v.pages, current, exhausted: v.exhausted }
}

/// The page closest to the fraction `num / den` of the way through a
/// document whose last slot is `last`, halves rounded up, and never past
/// `last`.
pub open spec fn nearest_page(num: int, den: int, last: int) -> int {
    let q = (num * last) / den;
    let r = (num * last) % den;
    let t = if 2 * r >= den {
        q + 1
    } else {
        q
    };
    if t < last {
        t
    } else {
        last
    }
}

/// The reading position as a fraction: the cursor over the last slot
/// (at least 1), or 0 of 1 when nothing is rendered.
pub open spec fn progress_of(v: PagerView) -> (int, int) {
    if v.pages.len() == 0 {
        (0, 1)
    } else {
        (v.current, max_int(v.pages.len() - 1, 1))
    }
}

/// One call of `next_page`: the batch after the cursor is made sure of,
/// then the cursor moves one slot on if there is a slot there.
pub open spec fn next_rel<F: Fn(&Vec<u8>, &TermCaps, usize, usize) -> Vec<Vec<u8>>>(
    render: F,
    markdown: Vec<u8>,
    caps: TermCaps,
    pre: PagerView,
    post: PagerView,
    moved: bool,
) -> bool {
    exists|mid: PagerView|
        {
            &&& #[trigger] load_step(render, markdown, caps, pre, pre.current + 1, mid)
            &&& moved == (mid.current + 1 < mid.pages.len())
            &&& post == if moved {
                at(mid, mid.current + 1)
            } else {
                mid
            }
        }
}

/// One call of `prev_page`: the cursor moves one slot back unless it is on
/// the first; the flag says whether it moved.
pub open spec fn prev_of(v: PagerView) -> (PagerView, bool) {
    if v.current > 0 {
        (at(v, v.current - 1), true)
    } else {
        (v, false)
    }
}

/// One call of `go_to`: the batch holding `index` is made sure of, then the
/// cursor moves to `index`, or to the last slot if there are fewer.
pub open spec fn go_to_rel<F: Fn(&Vec<u8>, &TermCaps, usize, usize) -> Vec<Vec<u8>>>(
    render: F,
    markdown: Vec<u8>,
    caps: TermCaps,
    pre: PagerView,
    index: int,
    post: PagerView,
) -> bool {
    exists|mid: PagerView|
        {
            &&& #[trigger] load_step(render, markdown, caps, pre, index, mid)
            &&& post == at(
                mid,
                if index < mid.pages.len() {
                    index
                } else if mid.pages.len() == 0 {
                    0
                } else {
                    mid.pages.len() - 1
                },
            )
        }
}

/// One call of `go_to_last`: batches are loaded at the slots
/// `len`, `len + BATCH_SIZE`, ... (where `len` is the slot count on entry)
/// for as long as the end of the document is unknown and the slot is at
/// most `isize::MAX`, then the cursor moves to the last slot.  A pager
/// whose end is already known only moves its cursor.
pub open spec fn last_rel<F: Fn(&Vec<u8>, &TermCaps, usize, usize) -> Vec<Vec<u8>>>(
    render: F,
    markdown: Vec<u8>,
    caps: TermCaps,
    pre: PagerView,
    post: PagerView,
) -> bool {
    &&& post.exhausted || post.pages.len() > isize::MAX - 16
    &&& exists|n: nat, loaded: PagerView|
        {
            &&& #[trigger] probe_loads(
                render,
                markdown,
                caps,
                pre,
                pre.pages.len() as int,
                loaded,
                n,
            )
            &&& loaded.exhausted || pre.pages.len() + BATCH_SIZE * n > isize::MAX
            &&& post == at(
                loaded,
                if loaded.pages.len() == 0 {
                    loaded.current
                } else {
                    loaded.pages.len() - 1
                },
            )
        }
}

/// One call of `go_to_progress`: as `go_to_last`, then the cursor moves to
/// the page nearest the fraction `num / den` (when there is a page).
pub open spec fn progress_rel<F: Fn(&Vec<u8>, &TermCaps, usize, usize) -> Vec<Vec<u8>>>(
    render: F,
    markdown: Vec<u8>,
    caps: TermCaps,
    pre: PagerView,
    num: int,
    den: int,
    post: PagerView,
) -> bool {
    exists|last: PagerView|
        {
            &&& #[trigger] last_rel(render, markdown, caps, pre, last)
            &&& post == if last.pages.len() == 0 {
                last
            } else {
                at(last, nearest_page(num, den, last.pages.len() - 1))
            }
        }
}

/// `Vec::len` on a batch of rendered pages.  Besides the length, the
/// contract states the bound that std documents for every vector: it never
/// takes up more than `isize::MAX` bytes, and a page (a `Vec<u8>` header)
/// takes up at least one byte, so a batch never holds more than
/// `isize::MAX` pages.
#[verifier::external_body]
fn batch_len(batch: &Vec<Vec<u8>>) -> (n: usize)
    ensures
        n == batch@.len(),
        n <= isize::MAX,
{
    batch.len()
}

impl PagerView {
    /// The invariant of every pager state: the cursor is on a slot (or at
    /// 0 when there is none) and the slot list ends with a rendered page.
    pub open spec fn wf(self) -> bool {
        &&& 0 <= self.current
        &&& self.current == 0 || self.current < self.pages.len()
        &&& self.pages.len() == 0 || self.pages.last() is Some
    }
}

impl View for PagerState {
    type V = PagerView;

    closed spec fn view(&self) -> PagerView {
        PagerView {
            pages: slots_view(self.pages@),
            current: self.current as int,
            exhausted: self.exhausted,
        }
    }
}

/// Properties of `trim`: it keeps a prefix, ends on a rendered page, and
/// keeps every slot up to the last rendered one.
pub proof fn lemma_trim(s: Seq<Option<Seq<u8>>>)
    ensures
        trim(s).len() <= s.len(),
        trim(s) =~= s.take(trim(s).len() as int),
        trim(s).len() == 0 || trim(s).last() is Some,
        forall|j: int| 0 <= j < s.len() && s[j] is Some ==> j < trim(s).len(),
    decreases s.len(),
{
    if s.len() > 0 && s.last() is None {
        lemma_trim(s.drop_last());
        assert forall|j: int| 0 <= j < s.len() && s[j] is Some implies j < trim(s).len() by {
            assert(j < s.len() - 1);
            assert(s.drop_last()[j] == s[j]);
        }
    }
}

impl PagerState {
    /// The document the pages are rendered from.
    pub closed spec fn source(&self) -> Vec<u8> {
        self.markdown
    }

    /// The terminal the pages are rendered for.
    pub closed spec fn term_caps(&self) -> TermCaps {
        self.caps
    }

    /// A pager on `markdown` with nothing rendered yet.
    pub fn new(markdown: Vec<u8>, caps: TermCaps) -> (s: Self)
        ensures
            s@ == (PagerView { pages: Seq::empty(), current: 0, exhausted: false }),
            s@.wf(),
            all_rendered(s@),
            s.source() == markdown,
            s.term_caps() == caps,
    {
        let s = Self { markdown, caps, pages: Vec::new(), current: 0, exhausted: false };
        assert(s@.pages =~= Seq::<Option<Seq<u8>>>::empty());
        s
    }

    /// Number of page slots currently known to exist.
    pub fn len(&self) -> (n: usize)
        ensures
            n == self@.pages.len(),
    {
        self.pages.len()
    }

    /// Whether the total page count is known.
    pub fn is_exhausted(&self) -> (b: bool)
        ensures
            b == self@.exhausted,
    {
        self.exhausted
    }

    /// Stores a rendered batch from slot `first` on.
    pub fn store_batch(&mut self, first: usize, rendered: Vec<Vec<u8>>)
        requires
            old(self)@.wf(),
            first + rendered@.len() <= usize::MAX,
            first + BATCH_SIZE <= usize::MAX,
        ensures
            final(self)@ == store(old(self)@, first as int, batch_view(rendered@)),
            final(self)@.wf(),
            final(self).source() == old(self).source(),
            final(self).term_caps() == old(self).term_caps(),
    {
        let ghost v0 = self@;
        let ghost r = batch_view(rendered@);
        let count = rendered.len();
        let required = first + if count > BATCH_SIZE {
            count
        } else {
            BATCH_SIZE
        };
        let ghost grown = if v0.pages.len() < required {
            v0.pages + Seq::new((required - v0.pages.len()) as nat, |i: int| None::<Seq<u8>>)
        } else {
            v0.pages
        };
        while self.pages.len() < required
            invariant
                self.current == v0.current,
                self.exhausted == v0.exhausted,
                self.markdown == old(self).markdown,
                self.caps == old(self).caps,
                v0.pages.len() <= self.pages@.len(),
                self.pages@.len() <= grown.len(),
                grown.len() == max_int(v0.pages.len() as int, required as int),
                forall|i: int|
                    0 <= i < grown.len() ==> #[trigger] grown[i] == if i < v0.pages.len() {
                        v0.pages[i]
                    } else {
                        None
                    },
                slots_view(self.pages@) =~= grown.take(self.pages@.len() as int),
            decreases required - self.pages@.len(),
        {
            let ghost before = self.pages@;
            self.pages.push(None);
            assert(slots_view(self.pages@) =~= slots_view(before).push(None));
        }
        assert(slots_view(self.pages@) =~= grown);
        let mut rendered = rendered;
        let mut k = count;
        while k > 0
            invariant
                k <= count,
                count == r.len(),
                first + count <= usize::MAX,
                first + count <= grown.len(),
                self.current == v0.current,
                self.exhausted == v0.exhausted,
                self.markdown == old(self).markdown,
                self.caps == old(self).caps,
                rendered@.len() == k,
                batch_view(rendered@) =~= r.take(k as int),
                self.pages@.len() == grown.len(),
                forall|i: int|
                    0 <= i < grown.len() ==> #[trigger] slots_view(self.pages@)[i] == if first + k
                        <= i < first + count {
                        Some(r[i - first])
                    } else {
                        grown[i]
                    },
            decreases k,
        {
            k = k - 1;
            let ghost before = rendered@;
            assert(batch_view(before)[k as int] == before[k as int]@);
            let page = rendered.pop().unwrap();
            assert(page@ == r[k as int]);
            let ghost pages_before = self.pages@;
            self.pages.set(first + k, Some(page));
            assert(batch_view(rendered@) =~= r.take(k as int));
            assert(slots_view(self.pages@) =~= slots_view(pages_before).update(
                first + k,
                Some(r[k as int]),
            ));
        }
        let ghost filled = slots_view(self.pages@);
        assert(filled =~= Seq::new(
            grown.len(),
            |i: int|
                if first <= i < first + r.len() {
                    Some(r[i - first])
                } else {
                    grown[i]
                },
        ));
        if count < BATCH_SIZE {
            self.exhausted = true;
            proof {
                lemma_trim(filled);
            }
            while self.pages.len() > 0 && self.pages[self.pages.len() - 1].is_none()
                invariant
                    self.current == v0.current,
                    self.exhausted,
                    self.markdown == old(self).markdown,
                    self.caps == old(self).caps,
                    trim(slots_view(self.pages@)) == trim(filled),
                    self.pages@.len() <= filled.len(),
                    slots_view(self.pages@) =~= filled.take(self.pages@.len() as int),
                decreases self.pages@.len(),
            {
                let ghost before = slots_view(self.pages@);
                self.pages.pop();
                assert(slots_view(self.pages@) =~= before.drop_last());
            }
            assert(trim(slots_view(self.pages@)) == slots_view(self.pages@));
        }
        proof {
            lemma_store_wf(v0, first as int, r);
        }
    }
}

impl PagerState {
    /// Makes sure the batch holding slot `index` is rendered, asking
    /// `render` for it when it is not.
    pub fn ensure_loaded<F>(&mut self, index: usize, render: &F)
        where
            F: Fn(&Vec<u8>, &TermCaps, usize, usize) -> Vec<Vec<u8>>,
        requires
            old(self)@.wf(),
            index <= isize::MAX,
            renders_anything(*render),
        ensures
            final(self)@.wf(),
            final(self).source() == old(self).source(),
            final(self).term_caps() == old(self).term_caps(),
            load_step(
                *render,
                old(self).source(),
                old(self).term_caps(),
                old(self)@,
                index as int,
                final(self)@,
            ),
    {
        if self.exhausted && index >= self.pages.len() {
            return;
        }
        let first = (index / BATCH_SIZE) * BATCH_SIZE;
        if first < self.pages.len() && self.pages[first].is_some() {
            return;
        }
        let rendered = render(&self.markdown, &self.caps, first + 1, first + BATCH_SIZE);
        let count = batch_len(&rendered);
        assert(first + count <= usize::MAX);
        let ghost r = rendered;
        self.store_batch(first, rendered);
        assert(render.ensures(
            (&old(self).markdown, &old(self).caps, (first + 1) as usize, (first + BATCH_SIZE) as usize),
            r,
        ));
    }
}

impl PagerState {
    /// The terminal the pages are rendered for.
    pub fn caps(&self) -> (c: TermCaps)
        ensures
            c == self.term_caps(),
    {
        self.caps
    }

    /// The slot the cursor is on.
    pub fn current(&self) -> (c: usize)
        ensures
            c == self@.current,
    {
        self.current
    }

    /// Moves to the next page, rendering its batch first if needed;
    /// returns whether the cursor moved.
    pub fn next_page<F>(&mut self, render: &F) -> (moved: bool)
        where
            F: Fn(&Vec<u8>, &TermCaps, usize, usize) -> Vec<Vec<u8>>,
        requires
            old(self)@.wf(),
            old(self)@.current < isize::MAX,
            renders_anything(*render),
        ensures
            final(self)@.wf(),
            final(self).source() == old(self).source(),
            final(self).term_caps() == old(self).term_caps(),
            next_rel(*render, old(self).source(), old(self).term_caps(), old(self)@, final(self)@, moved),
    {
        self.ensure_loaded(self.current + 1, render);
        let ghost mid = self@;
        if self.current + 1 < self.pages.len() {
            self.current = self.current + 1;
            assert(self@ == at(mid, mid.current + 1));
            true
        } else {
            false
        }
    }

    /// Moves to the previous page; returns whether the cursor moved.
    pub fn prev_page(&mut self) -> (moved: bool)
        requires
            old(self)@.wf(),
        ensures
            final(self)@.wf(),
            final(self).source() == old(self).source(),
            final(self).term_caps() == old(self).term_caps(),
            (final(self)@, moved) == prev_of(old(self)@),
    {
        if self.current > 0 {
            self.current = self.current - 1;
            true
        } else {
            false
        }
    }

    /// Moves to slot `index`, rendering its batch first if needed, and
    /// stops at the last known slot.
    pub fn go_to<F>(&mut self, index: usize, render: &F)
        where
            F: Fn(&Vec<u8>, &TermCaps, usize, usize) -> Vec<Vec<u8>>,
        requires
            old(self)@.wf(),
            index <= isize::MAX,
            renders_anything(*render),
        ensures
            final(self)@.wf(),
            final(self).source() == old(self).source(),
            final(self).term_caps() == old(self).term_caps(),
            go_to_rel(*render, old(self).source(), old(self).term_caps(), old(self)@, index as int, final(self)@),
    {
        self.ensure_loaded(index, render);
        let last = if self.pages.len() == 0 {
            0
        } else {
            self.pages.len() - 1
        };
        self.current = if index < last {
            index
        } else {
            last
        };
    }

    /// Renders batches until the end of the document is known, then moves
    /// to the last page.
    pub fn go_to_last<F>(&mut self, render: &F)
        where
            F: Fn(&Vec<u8>, &TermCaps, usize, usize) -> Vec<Vec<u8>>,
        requires
            old(self)@.wf(),
            renders_anything(*render),
        ensures
            final(self)@.wf(),
            final(self).source() == old(self).source(),
            final(self).term_caps() == old(self).term_caps(),
            last_rel(*render, old(self).source(), old(self).term_caps(), old(self)@, final(self)@),
    {
        let ghost md = self.markdown;
        let ghost caps = self.caps;
        let ghost start = self@;
        let ghost mut n: nat = 0;
        let mut probe = self.pages.len();
        assert(probe_loads(*render, md, caps, start, probe as int, self@, 0));
        while !self.exhausted && probe <= isize::MAX as usize
            invariant
                self@.wf(),
                self.markdown == md,
                self.caps == caps,
                md == old(self).source(),
                caps == old(self).term_caps(),
                start == old(self)@,
                renders_anything(*render),
                probe == start.pages.len() + BATCH_SIZE * n,
                probe_loads(*render, md, caps, start, start.pages.len() as int, self@, n),
                !self.exhausted ==> probe <= self.pages@.len() + 15,
            decreases isize::MAX + 8 - probe,
        {
            let ghost pre = self@;
            self.ensure_loaded(probe, render);
            proof {
                assert(load_step(*render, md, caps, pre, probe as int, self@));
                let idx = start.pages.len() + BATCH_SIZE * ((n + 1) as nat - 1);
                assert(idx == probe as int);
                assert(!pre.exhausted);
                assert(load_step(*render, md, caps, pre, idx, self@));
                assert(probe_loads(
                    *render,
                    md,
                    caps,
                    start,
                    start.pages.len() as int,
                    self@,
                    n + 1,
                ));
                n = n + 1;
            }
            probe = probe + BATCH_SIZE;
        }
        if self.pages.len() > 0 {
            self.current = self.pages.len() - 1;
        }
    }
}

impl PagerState {
    /// The reading position as a fraction (numerator, denominator).
    pub fn progress(&self) -> (p: (usize, usize))
        requires
            self@.wf(),
        ensures
            (p.0 as int, p.1 as int) == progress_of(self@),
            p.1 > 0,
    {
        if self.pages.len() == 0 {
            (0, 1)
        } else {
            let d = self.pages.len() - 1;
            (self.current, if d > 1 {
                d
            } else {
                1
            })
        }
    }

    /// Renders the whole document, then moves to the page closest to the
    /// fraction `num / den` of the way through it.
    pub fn go_to_progress<F>(&mut self, num: usize, den: usize, render: &F)
        where
            F: Fn(&Vec<u8>, &TermCaps, usize, usize) -> Vec<Vec<u8>>,
        requires
            old(self)@.wf(),
            den > 0,
            renders_anything(*render),
        ensures
            final(self)@.wf(),
            final(self).source() == old(self).source(),
            final(self).term_caps() == old(self).term_caps(),
            progress_rel(
                *render,
                old(self).source(),
                old(self).term_caps(),
                old(self)@,
                num as int,
                den as int,
                final(self)@,
            ),
    {
        self.go_to_last(render);
        if self.pages.len() == 0 {
            return;
        }
        let last = self.pages.len() - 1;
        let wide_num = num as u128;
        let wide_last = last as u128;
        let wide_den = den as u128;
        assert(wide_num * wide_last < u128::MAX) by (nonlinear_arith)
            requires
                wide_num <= usize::MAX,
                wide_last <= usize::MAX,
                usize::MAX <= u64::MAX,
        ;
        let prod = wide_num * wide_last;
        let q = prod / wide_den;
        let r = prod % wide_den;
        assert(q <= prod) by (nonlinear_arith)
            requires
                wide_den >= 1,
                q == prod / wide_den,
        ;
        let t = if 2 * r >= wide_den {
            q + 1
        } else {
            q
        };
        self.current = if t < wide_last {
            t as usize
        } else {
            last
        };
    }

    /// The page under the cursor, if it is rendered.
    pub fn current_page(&self) -> (page: Option<&[u8]>)
        ensures
            match page {
                Some(p) => 0 <= self@.current < self@.pages.len() && self@.pages[self@.current]
                    == Some(p@),
                None => !(0 <= self@.current < self@.pages.len() && self@.pages[self@.current] is Some),
            },
    {
        if self.current < self.pages.len() {
            match &self.pages[self.current] {
                Some(p) => Some(p.as_slice()),
                None => None,
            }
        } else {
            None
        }
    }
}

/// Storing a batch keeps the pager invariant.
pub proof fn lemma_store_wf(v: PagerView, first: int, rendered: Seq<Seq<u8>>)
    requires
        v.wf(),
        0 <= first,
    ensures
        store(v, first, rendered).wf(),
        store(v, first, rendered).pages.len() >= v.pages.len(),
        store(v, first, rendered).current == v.current,
{
    let required = first + max_int(rendered.len() as int, BATCH_SIZE as int);
    let grown = if v.pages.len() < required {
        v.pages + Seq::new((required - v.pages.len()) as nat, |i: int| None::<Seq<u8>>)
    } else {
        v.pages
    };
    let filled = Seq::new(
        grown.len(),
        |i: int|
            if first <= i < first + rendered.len() {
                Some(rendered[i - first])
            } else {
                grown[i]
            },
    );
    lemma_trim(filled);
    if v.pages.len() > 0 {
        assert(grown[v.pages.len() - 1] == v.pages[v.pages.len() - 1]);
        assert(filled[v.pages.len() - 1] is Some);
    }
    if rendered.len() >= BATCH_SIZE {
        assert(filled.len() > 0);
        if v.pages.len() < required {
            assert(filled[filled.len() - 1] is Some);
        } else {
            let l = filled.len() - 1;
            assert(filled[l] is Some);
        }
    }
}

/// Loading a batch keeps the cursor where it is, never shrinks the slot
/// list, never forgets a rendered page, never forgets that the end is
/// known, and keeps the pager invariant.
pub proof fn lemma_load_keeps_rendered<F: Fn(&Vec<u8>, &TermCaps, usize, usize) -> Vec<Vec<u8>>>(
    render: F,
    markdown: Vec<u8>,
    caps: TermCaps,
    pre: PagerView,
    index: int,
    post: PagerView,
)
    requires
        pre.wf(),
        0 <= index,
        load_step(render, markdown, caps, pre, index, post),
    ensures
        post.wf(),
        post.current == pre.current,
        post.pages.len() >= pre.pages.len(),
        pre.exhausted ==> post.exhausted,
        forall|i: int| 0 <= i < pre.pages.len() && pre.pages[i] is Some ==> post.pages[i] is Some,
{
    if needs_load(pre, index) {
        let first = batch_first(index);
        let r = choose|r: Vec<Vec<u8>>|
            #[trigger] render.ensures(
                (&markdown, &caps, (first + 1) as usize, (first + BATCH_SIZE) as usize),
                r,
            ) && post == store(pre, first, batch_view(r@));
        let rendered = batch_view(r@);
        assert(first >= 0) by (nonlinear_arith)
            requires
                index >= 0,
                first == (index / 8) * 8,
        ;
        lemma_store_keeps_rendered(pre, first, rendered);
    }
}

/// Storing a batch never clears a rendered slot.
proof fn lemma_store_keeps_rendered(v: PagerView, first: int, rendered: Seq<Seq<u8>>)
    requires
        v.wf(),
        0 <= first,
    ensures
        store(v, first, rendered).wf(),
        store(v, first, rendered).current == v.current,
        store(v, first, rendered).pages.len() >= v.pages.len(),
        v.exhausted ==> store(v, first, rendered).exhausted,
        forall|i: int|
            0 <= i < v.pages.len() && v.pages[i] is Some ==> store(v, first, rendered).pages[i] is Some,
{
    lemma_store_wf(v, first, rendered);
    let required = first + max_int(rendered.len() as int, BATCH_SIZE as int);
    let grown = if v.pages.len() < required {
        v.pages + Seq::new((required - v.pages.len()) as nat, |i: int| None::<Seq<u8>>)
    } else {
        v.pages
    };
    let filled = Seq::new(
        grown.len(),
        |i: int|
            if first <= i < first + rendered.len() {
                Some(rendered[i - first])
            } else {
                grown[i]
            },
    );
    lemma_trim(filled);
    assert forall|i: int| 0 <= i < v.pages.len() && v.pages[i] is Some implies store(
        v,
        first,
        rendered,
    ).pages[i] is Some by {
        assert(grown[i] == v.pages[i]);
        assert(filled[i] is Some);
        if rendered.len() < BATCH_SIZE {
            assert(trim(filled)[i] == filled[i]);
        }
    }
}

/// Going back right after a successful step forward returns to the page
/// one was on.
pub proof fn lemma_prev_undoes_next<F: Fn(&Vec<u8>, &TermCaps, usize, usize) -> Vec<Vec<u8>>>(
    render: F,
    markdown: Vec<u8>,
    caps: TermCaps,
    pre: PagerView,
    post: PagerView,
)
    requires
        pre.wf(),
        next_rel(render, markdown, caps, pre, post, true),
    ensures
        post.current == pre.current + 1,
        prev_of(post).1,
        prev_of(post).0.current == pre.current,
        prev_of(post).0.pages == post.pages,
{
    let mid = choose|mid: PagerView|
        {
            &&& #[trigger] load_step(render, markdown, caps, pre, pre.current + 1, mid)
            &&& true == (mid.current + 1 < mid.pages.len())
            &&& post == if true {
                at(mid, mid.current + 1)
            } else {
                mid
            }
        };
    lemma_load_keeps_rendered(render, markdown, caps, pre, pre.current + 1, mid);
}

/// The key for the first page always lands on the first page.
pub proof fn lemma_first_goes_home<F: Fn(&Vec<u8>, &TermCaps, usize, usize) -> Vec<Vec<u8>>>(
    render: F,
    markdown: Vec<u8>,
    caps: TermCaps,
    pre: PagerView,
    post: PagerView,
)
    requires
        go_to_rel(render, markdown, caps, pre, 0, post),
    ensures
        post.current == 0,
{
}

/// After going to the last page the cursor is on the last slot, and the
/// page count is known (unless the slot list outgrew any memory).
pub proof fn lemma_last_lands_on_last<F: Fn(&Vec<u8>, &TermCaps, usize, usize) -> Vec<Vec<u8>>>(
    render: F,
    markdown: Vec<u8>,
    caps: TermCaps,
    pre: PagerView,
    post: PagerView,
)
    requires
        pre.wf(),
        pre.pages.len() > 0,
        last_rel(render, markdown, caps, pre, post),
    ensures
        post.current == post.pages.len() - 1,
        post.exhausted || post.pages.len() > isize::MAX - 16,
{
    let (n, loaded) = choose|n: nat, loaded: PagerView|
        {
            &&& #[trigger] probe_loads(
                render,
                markdown,
                caps,
                pre,
                pre.pages.len() as int,
                loaded,
                n,
            )
            &&& loaded.exhausted || pre.pages.len() + BATCH_SIZE * n > isize::MAX
            &&& post == at(
                loaded,
                if loaded.pages.len() == 0 {
                    loaded.current
                } else {
                    loaded.pages.len() - 1
                },
            )
        };
    lemma_loads_grow(render, markdown, caps, pre, pre.pages.len() as int, loaded, n);
}

/// A run of loads never shrinks the slot list, keeps the invariant and
/// the cursor, and never forgets a rendered page.
pub proof fn lemma_loads_grow<F: Fn(&Vec<u8>, &TermCaps, usize, usize) -> Vec<Vec<u8>>>(
    render: F,
    markdown: Vec<u8>,
    caps: TermCaps,
    pre: PagerView,
    probe: int,
    post: PagerView,
    n: nat,
)
    requires
        pre.wf(),
        probe_loads(render, markdown, caps, pre, probe, post, n),
    ensures
        post.wf(),
        post.current == pre.current,
        post.pages.len() >= pre.pages.len(),
        pre.exhausted ==> post == pre,
        forall|i: int| 0 <= i < pre.pages.len() && pre.pages[i] is Some ==> post.pages[i] is Some,
    decreases n,
{
    if n > 0 {
        let index = probe + BATCH_SIZE * (n - 1);
        let mid = choose|mid: PagerView|
            {
                &&& probe_loads(render, markdown, caps, pre, probe, mid, (n - 1) as nat)
                &&& !mid.exhausted
                &&& 0 <= index <= isize::MAX
                &&& #[trigger] load_step(render, markdown, caps, mid, index, post)
            };
        lemma_loads_grow(render, markdown, caps, pre, probe, mid, (n - 1) as nat);
        lemma_load_keeps_rendered(render, markdown, caps, mid, index, post);
    }
}

/// Re-rendering keeps the reading position: the page nearest the
/// pager's progress fraction, in a document with the same number of
/// pages, is the page the cursor is on.
pub proof fn lemma_progress_round_trip(v: PagerView)
    requires
        v.wf(),
        v.pages.len() > 0,
    ensures
        nearest_page(progress_of(v).0, progress_of(v).1, v.pages.len() - 1) == v.current,
{
    let last = v.pages.len() - 1;
    let c = v.current;
    if last == 0 {
        assert(c == 0);
        assert(c * last == 0);
    } else {
        assert((c * last) / last == c && (c * last) % last == 0) by (nonlinear_arith)
            requires
                last > 0,
                c >= 0,
        ;
    }
}

/// The page chosen for a progress fraction is the nearest one: it is
/// within half a page of the exact position, rounding halves up.
pub proof fn lemma_nearest_page_is_nearest(num: int, den: int, last: int)
    requires
        0 <= num <= den,
        den > 0,
        last >= 0,
    ensures
        0 <= nearest_page(num, den, last) <= last,
        -den < 2 * (nearest_page(num, den, last) * den - num * last) <= den,
{
    let x = num * last;
    let q = x / den;
    let r = x % den;
    assert(x == q * den + r && 0 <= r < den) by (nonlinear_arith)
        requires
            den > 0,
            q == x / den,
            r == x % den,
    ;
    assert(0 <= x <= den * last) by (nonlinear_arith)
        requires
            0 <= num <= den,
            last >= 0,
            x == num * last,
    ;
    assert(q <= last) by (nonlinear_arith)
        requires
            x == q * den + r,
            0 <= r < den,
            x <= den * last,
            den > 0,
    ;
    assert(q >= 0) by (nonlinear_arith)
        requires
            x == q * den + r,
            0 <= r < den,
            x >= 0,
            den > 0,
    ;
    if 2 * r >= den {
        assert(q + 1 <= last) by (nonlinear_arith)
            requires
                x == q * den + r,
                0 < r < den,
                x <= den * last,
                den > 0,
                q <= last,
        ;
        assert((q + 1) * den - x == den - r) by (nonlinear_arith)
            requires
                x == q * den + r,
        ;
    } else {
        assert(q * den - x == -r) by (nonlinear_arith)
            requires
                x == q * den + r,
        ;
    }
}

/// A pager whose end is known is not rendered again by `go_to_last`;
/// only its cursor moves, to the last slot.
pub proof fn lemma_finished_pager_stays<F: Fn(&Vec<u8>, &TermCaps, usize, usize) -> Vec<Vec<u8>>>(
    render: F,
    markdown: Vec<u8>,
    caps: TermCaps,
    pre: PagerView,
    post: PagerView,
)
    requires
        pre.wf(),
        pre.exhausted,
        last_rel(render, markdown, caps, pre, post),
    ensures
        post == at(
            pre,
            if pre.pages.len() == 0 {
                pre.current
            } else {
                pre.pages.len() - 1
            },
        ),
{
    let (n, loaded) = choose|n: nat, loaded: PagerView|
        {
            &&& #[trigger] probe_loads(
                render,
                markdown,
                caps,
                pre,
                pre.pages.len() as int,
                loaded,
                n,
            )
            &&& loaded.exhausted || pre.pages.len() + BATCH_SIZE * n > isize::MAX
            &&& post == at(
                loaded,
                if loaded.pages.len() == 0 {
                    loaded.current
                } else {
                    loaded.pages.len() - 1
                },
            )
        };
    lemma_loads_grow(render, markdown, caps, pre, pre.pages.len() as int, loaded, n);
}

/// Re-rendering a finished pager at its own progress changes nothing: the
/// pages stay and the cursor comes back to the page it was on.
pub proof fn lemma_rerender_finished<F: Fn(&Vec<u8>, &TermCaps, usize, usize) -> Vec<Vec<u8>>>(
    render: F,
    markdown: Vec<u8>,
    caps: TermCaps,
    pre: PagerView,
    post: PagerView,
)
    requires
        pre.wf(),
        pre.exhausted,
        pre.pages.len() > 0,
        progress_rel(render, markdown, caps, pre, progress_of(pre).0, progress_of(pre).1, post),
    ensures
        post == pre,
{
    let last = choose|last: PagerView|
        {
            &&& #[trigger] last_rel(render, markdown, caps, pre, last)
            &&& post == if last.pages.len() == 0 {
                last
            } else {
                at(last, nearest_page(progress_of(pre).0, progress_of(pre).1, last.pages.len() - 1))
            }
        };
    lemma_finished_pager_stays(render, markdown, caps, pre, last);
    lemma_progress_round_trip(pre);
}

/// Every slot holds a rendered page, and until the end of the document is
/// known the slot count is a whole number of batches.
pub open spec fn all_rendered(v: PagerView) -> bool {
    &&& forall|i: int| 0 <= i < v.pages.len() ==> v.pages[i] is Some
    &&& !v.exhausted ==> v.pages.len() % (BATCH_SIZE as nat) == 0
}

/// The renderer, asked for the batch starting at slot `first`, returns at
/// most one batch of pages.
pub open spec fn batch_fits<F: Fn(&Vec<u8>, &TermCaps, usize, usize) -> Vec<Vec<u8>>>(
    render: F,
    markdown: Vec<u8>,
    caps: TermCaps,
    first: int,
) -> bool {
    forall|r: Vec<Vec<u8>>|
        #[trigger] render.ensures(
            (&markdown, &caps, (first + 1) as usize, (first + BATCH_SIZE) as usize),
            r,
        ) ==> r@.len() <= BATCH_SIZE
}

/// The renderer returns at most one batch for every request.
pub open spec fn batches_fit<F: Fn(&Vec<u8>, &TermCaps, usize, usize) -> Vec<Vec<u8>>>(
    render: F,
) -> bool {
    forall|m: &Vec<u8>, c: &TermCaps, s: usize, e: usize, r: Vec<Vec<u8>>|
        #[trigger] render.ensures((m, c, s, e), r) ==> r@.len() <= BATCH_SIZE
}

/// Trimming a list of rendered slots followed by empty ones leaves the
/// rendered ones.
proof fn lemma_trim_tail(s: Seq<Option<Seq<u8>>>, k: int)
    requires
        0 <= k <= s.len(),
        forall|i: int| 0 <= i < k ==> s[i] is Some,
        forall|i: int| k <= i < s.len() ==> s[i] is None,
    ensures
        trim(s) == s.take(k),
    decreases s.len(),
{
    if s.len() > k {
        assert(s.last() is None);
        lemma_trim_tail(s.drop_last(), k);
        assert(s.drop_last().take(k) =~= s.take(k));
    } else {
        assert(s.take(k) =~= s);
        if s.len() > 0 {
            assert(s.last() is Some);
        }
    }
}

/// Loading keeps every slot rendered and the slot count a whole number of
/// batches, when the batch asked for is the one after the loaded pages and
/// comes back no larger than a batch.  A load then adds the rendered
/// batch after the pages already there, and adds a whole batch unless it
/// marks the end.
pub proof fn lemma_load_keeps_all_rendered<F: Fn(&Vec<u8>, &TermCaps, usize, usize) -> Vec<Vec<u8>>>(
    render: F,
    markdown: Vec<u8>,
    caps: TermCaps,
    pre: PagerView,
    index: int,
    post: PagerView,
)
    requires
        pre.wf(),
        all_rendered(pre),
        0 <= index,
        batch_first(index) <= pre.pages.len(),
        batch_fits(render, markdown, caps, batch_first(index)),
        load_step(render, markdown, caps, pre, index, post),
    ensures
        all_rendered(post),
        post.current == pre.current,
        post.pages.len() >= pre.pages.len(),
        post.pages.subrange(0, pre.pages.len() as int) == pre.pages,
        needs_load(pre, index) ==> batch_first(index) == pre.pages.len() && (!post.exhausted
            ==> post.pages.len() == pre.pages.len() + BATCH_SIZE),
        needs_load(pre, index) ==> exists|r: Vec<Vec<u8>>|
            #[trigger] render.ensures(
                (
                    &markdown,
                    &caps,
                    (batch_first(index) + 1) as usize,
                    (batch_first(index) + BATCH_SIZE) as usize,
                ),
                r,
            ) && post.pages.len() == pre.pages.len() + r@.len() && post.exhausted == (r@.len()
                < BATCH_SIZE),
        !needs_load(pre, index) ==> post == pre,
{
    if needs_load(pre, index) {
        let first = batch_first(index);
        let r = choose|r: Vec<Vec<u8>>|
            #[trigger] render.ensures(
                (&markdown, &caps, (first + 1) as usize, (first + BATCH_SIZE) as usize),
                r,
            ) && post == store(pre, first, batch_view(r@));
        let rendered = batch_view(r@);
        let len = pre.pages.len() as int;
        if first < len {
            assert(pre.pages[first] is Some);
        }
        assert(first == len);
        assert(!pre.exhausted);
        assert(rendered.len() <= BATCH_SIZE);
        let required = first + BATCH_SIZE;
        let grown = pre.pages + Seq::new(BATCH_SIZE as nat, |i: int| None::<Seq<u8>>);
        let filled = Seq::new(
            grown.len(),
            |i: int|
                if first <= i < first + rendered.len() {
                    Some(rendered[i - first])
                } else {
                    grown[i]
                },
        );
        assert(max_int(rendered.len() as int, BATCH_SIZE as int) == BATCH_SIZE);
        if rendered.len() < BATCH_SIZE {
            lemma_trim_tail(filled, len + rendered.len());
            assert(post.pages == filled.take(len + rendered.len()));
            assert(post.pages.subrange(0, len) =~= pre.pages);
        } else {
            assert(post.pages == filled);
            assert(post.pages.subrange(0, len) =~= pre.pages);
            assert(post.pages.len() == len + 8);
            assert((len + 8) % 8 == 0);
        }
    } else {
        assert(post.pages.subrange(0, pre.pages.len() as int) =~= pre.pages);
    }
}

/// Stepping forward keeps every slot rendered and the slot count a whole
/// number of batches, with a renderer that returns at most one batch.
pub proof fn lemma_next_keeps_all_rendered<F: Fn(&Vec<u8>, &TermCaps, usize, usize) -> Vec<Vec<u8>>>(
    render: F,
    markdown: Vec<u8>,
    caps: TermCaps,
    pre: PagerView,
    post: PagerView,
    moved: bool,
)
    requires
        pre.wf(),
        all_rendered(pre),
        batches_fit(render),
        next_rel(render, markdown, caps, pre, post, moved),
    ensures
        all_rendered(post),
        post.pages.subrange(0, pre.pages.len() as int) == pre.pages,
{
    let mid = choose|mid: PagerView|
        {
            &&& #[trigger] load_step(render, markdown, caps, pre, pre.current + 1, mid)
            &&& moved == (mid.current + 1 < mid.pages.len())
            &&& post == if moved {
                at(mid, mid.current + 1)
            } else {
                mid
            }
        };
    let index = pre.current + 1;
    assert(batch_first(index) <= index) by (nonlinear_arith)
        requires
            index >= 0,
    ;
    lemma_load_keeps_all_rendered(render, markdown, caps, pre, index, mid);
}

/// Loading at the probes of `go_to_last` keeps every slot rendered; while
/// the end is unknown every probe is exactly the slot count, so each load
/// adds a whole batch after the pages already there.
pub proof fn lemma_probe_loads_all_rendered<F: Fn(&Vec<u8>, &TermCaps, usize, usize) -> Vec<Vec<u8>>>(
    render: F,
    markdown: Vec<u8>,
    caps: TermCaps,
    pre: PagerView,
    post: PagerView,
    n: nat,
)
    requires
        pre.wf(),
        all_rendered(pre),
        batches_fit(render),
        probe_loads(render, markdown, caps, pre, pre.pages.len() as int, post, n),
    ensures
        post.wf(),
        all_rendered(post),
        post.current == pre.current,
        post.pages.len() >= pre.pages.len(),
        post.pages.subrange(0, pre.pages.len() as int) == pre.pages,
        !post.exhausted ==> post.pages.len() == pre.pages.len() + BATCH_SIZE * n,
    decreases n,
{
    if n == 0 {
        assert(post.pages.subrange(0, pre.pages.len() as int) =~= pre.pages);
    } else {
        let index = pre.pages.len() + BATCH_SIZE * (n - 1);
        let mid = choose|mid: PagerView|
            {
                &&& probe_loads(render, markdown, caps, pre, pre.pages.len() as int, mid, (n - 1) as nat)
                &&& !mid.exhausted
                &&& 0 <= index <= isize::MAX
                &&& #[trigger] load_step(render, markdown, caps, mid, index, post)
            };
        lemma_probe_loads_all_rendered(render, markdown, caps, pre, mid, (n - 1) as nat);
        lemma_loads_grow(render, markdown, caps, pre, pre.pages.len() as int, mid, (n - 1) as nat);
        assert(mid.pages.len() == index);
        assert(batch_first(index) == index) by (nonlinear_arith)
            requires
                index % 8 == 0,
                index >= 0,
        ;
        lemma_load_keeps_all_rendered(render, markdown, caps, mid, index, post);
        assert(post.pages.subrange(0, pre.pages.len() as int) =~= mid.pages.subrange(
            0,
            pre.pages.len() as int,
        ));
    }
}

/// The renderer renders a document of `n_pages` pages: asked for pages
/// `s..=e`, it returns the pages of that range that exist.
pub open spec fn renders_document<F: Fn(&Vec<u8>, &TermCaps, usize, usize) -> Vec<Vec<u8>>>(
    render: F,
    n_pages: int,
) -> bool {
    forall|m: &Vec<u8>, c: &TermCaps, s: usize, e: usize, r: Vec<Vec<u8>>|
        1 <= s <= e && #[trigger] render.ensures((m, c, s, e), r) ==> r@.len() == if n_pages < s {
            0
        } else if n_pages < e {
            n_pages - s + 1
        } else {
            e - s + 1
        }
}

/// Loading at the probes of `go_to_last` from a renderer of an
/// `n_pages`-page document never passes the document's end, and marks the
/// end only once all its pages are there.
proof fn lemma_probe_loads_document<F: Fn(&Vec<u8>, &TermCaps, usize, usize) -> Vec<Vec<u8>>>(
    render: F,
    markdown: Vec<u8>,
    caps: TermCaps,
    n_pages: int,
    pre: PagerView,
    post: PagerView,
    n: nat,
)
    requires
        pre.wf(),
        all_rendered(pre),
        0 <= n_pages <= isize::MAX - 16,
        renders_document(render, n_pages),
        pre.pages.len() <= n_pages,
        pre.exhausted ==> pre.pages.len() == n_pages,
        probe_loads(render, markdown, caps, pre, pre.pages.len() as int, post, n),
    ensures
        post.wf(),
        all_rendered(post),
        post.current == pre.current,
        post.pages.len() <= n_pages,
        post.exhausted ==> post.pages.len() == n_pages,
        !post.exhausted ==> post.pages.len() == pre.pages.len() + BATCH_SIZE * n,
    decreases n,
{
    if n > 0 {
        let index = pre.pages.len() + BATCH_SIZE * (n - 1);
        let mid = choose|mid: PagerView|
            {
                &&& probe_loads(
                    render,
                    markdown,
                    caps,
                    pre,
                    pre.pages.len() as int,
                    mid,
                    (n - 1) as nat,
                )
                &&& !mid.exhausted
                &&& 0 <= index <= isize::MAX
                &&& #[trigger] load_step(render, markdown, caps, mid, index, post)
            };
        lemma_probe_loads_document(render, markdown, caps, n_pages, pre, mid, (n - 1) as nat);
        lemma_loads_grow(render, markdown, caps, pre, pre.pages.len() as int, mid, (n - 1) as nat);
        assert(mid.pages.len() == index);
        assert(batch_first(index) == index) by (nonlinear_arith)
            requires
                index % 8 == 0,
                index >= 0,
        ;
        let s1 = (index + 1) as usize;
        let e1 = (index + BATCH_SIZE) as usize;
        assert forall|r: Vec<Vec<u8>>| #[trigger]
            render.ensures((&markdown, &caps, s1, e1), r) implies r@.len() <= BATCH_SIZE by {
            assert(1 <= s1 <= e1);
        }
        assert(batch_fits(render, markdown, caps, index));
        lemma_load_keeps_all_rendered(render, markdown, caps, mid, index, post);
        assert(needs_load(mid, index));
        let r = choose|r: Vec<Vec<u8>>|
            #[trigger] render.ensures((&markdown, &caps, s1, e1), r) && post.pages.len()
                == mid.pages.len() + r@.len() && post.exhausted == (r@.len() < BATCH_SIZE);
        assert(1 <= s1 <= e1);
    }
}

/// Going to the last page of an `n_pages`-page document loads exactly its
/// pages and lands on its last one: afterwards the end is known, there are
/// `n_pages` slots, all rendered, and the cursor is on the last (it stays
/// where it was when the document has no page).
pub proof fn lemma_last_page_of_document<F: Fn(&Vec<u8>, &TermCaps, usize, usize) -> Vec<Vec<u8>>>(
    render: F,
    markdown: Vec<u8>,
    caps: TermCaps,
    n_pages: int,
    pre: PagerView,
    post: PagerView,
)
    requires
        pre.wf(),
        all_rendered(pre),
        0 <= n_pages <= isize::MAX - 16,
        renders_document(render, n_pages),
        pre.pages.len() <= n_pages,
        pre.exhausted ==> pre.pages.len() == n_pages,
        last_rel(render, markdown, caps, pre, post),
    ensures
        post.exhausted,
        post.pages.len() == n_pages,
        all_rendered(post),
        n_pages > 0 ==> post.current == n_pages - 1,
        n_pages == 0 ==> post.current == pre.current,
{
    let (n, loaded) = choose|n: nat, loaded: PagerView|
        {
            &&& #[trigger] probe_loads(
                render,
                markdown,
                caps,
                pre,
                pre.pages.len() as int,
                loaded,
                n,
            )
            &&& loaded.exhausted || pre.pages.len() + BATCH_SIZE * n > isize::MAX
            &&& post == at(
                loaded,
                if loaded.pages.len() == 0 {
                    loaded.current
                } else {
                    loaded.pages.len() - 1
                },
            )
        };
    lemma_probe_loads_document(render, markdown, caps, n_pages, pre, loaded, n);
}

/// A decoded key press.
#[derive(Clone, Copy, Debug, PartialEq, Eq, Structural)]
pub enum Key {
    Next,
    Prev,
    First,
    Last,
    Quit,
    Unknown,
}

/// The key for a byte that does not start an escape sequence.
pub open spec fn plain_key(b: u8) -> Key {
    if b == 32 || b == 113 || b == 81 {
        Key::Quit
    } else if b == 106 || b == 110 || b == 10 || b == 13 {
        Key::Next
    } else if b == 98 || b == 107 || b == 112 {
        Key::Prev
    } else if b == 103 {
        Key::First
    } else if b == 71 {
        Key::Last
    } else {
        Key::Unknown
    }
}

/// The key for the final byte of an arrow/Home/End escape sequence.
pub open spec fn arrow_key(b: u8) -> Key {
    if b == 65 || b == 68 {
        Key::Prev
    } else if b == 66 || b == 67 {
        Key::Next
    } else if b == 72 {
        Key::First
    } else if b == 70 {
        Key::Last
    } else {
        Key::Unknown
    }
}

/// Index of the first byte at or after `i` in 0x40..=0x7E (a control
/// sequence's final byte), or the length when there is none.
pub open spec fn csi_end(buf: Seq<u8>, i: int) -> int
    decreases buf.len() - i,
{
    if i >= buf.len() {
        buf.len() as int
    } else if 0x40 <= buf[i] <= 0x7E {
        i
    } else {
        csi_end(buf, i + 1)
    }
}

/// The key of the control sequence `buf[0..=j]` (`ESC [` ... final byte
/// at `j`): the final byte names an arrow, Home or End; `ESC [ 1 ~` is Home
/// and `ESC [ 4 ~` is End.
pub open spec fn csi_key(buf: Seq<u8>, j: int) -> Key {
    if buf[j] == 126 {
        if buf.subrange(0, j + 1) == seq![27u8, 91u8, 49u8, 126u8] {
            Key::First
        } else if buf.subrange(0, j + 1) == seq![27u8, 91u8, 52u8, 126u8] {
            Key::Last
        } else {
            Key::Unknown
        }
    } else {
        arrow_key(buf[j])
    }
}

/// The first complete key in `buf` and the number of bytes it takes, or
/// `None` while the buffer holds only the start of one.
pub open spec fn key_of(buf: Seq<u8>) -> Option<(Key, int)> {
    if buf.len() == 0 {
        None
    } else if buf[0] != 27 {
        Some((plain_key(buf[0]), 1))
    } else if buf.len() < 2 {
        None
    } else if buf[1] == 79 && buf.len() >= 3 {
        Some((arrow_key(buf[2]), 3))
    } else if buf[1] == 91 {
        let j = csi_end(buf, 2);
        if j < buf.len() {
            Some((csi_key(buf, j), j + 1))
        } else {
            None
        }
    } else {
        Some((Key::Unknown, 2))
    }
}

proof fn lemma_csi_end_bounds(buf: Seq<u8>, i: int)
    requires
        0 <= i,
    ensures
        i <= csi_end(buf, i) || csi_end(buf, i) == buf.len(),
        csi_end(buf, i) <= buf.len() || i > buf.len(),
    decreases buf.len() - i,
{
    if i < buf.len() && !(0x40 <= buf[i] <= 0x7E) {
        lemma_csi_end_bounds(buf, i + 1);
    }
}

/// A decoded key takes at least one byte and no more than the buffer
/// holds; a byte other than ESC is a key by itself, whatever follows it;
/// the first complete key does not change when more bytes arrive (save a
/// two-byte `ESC O`, which a third byte makes an arrow sequence); and a
/// buffer that decodes to nothing is empty, a lone ESC, or an
/// unfinished control sequence (`ESC [` with no final byte yet).
pub proof fn lemma_key_of_bounds(buf: Seq<u8>, more: Seq<u8>)
    ensures
        key_of(buf) matches Some((k, n)) ==> 1 <= n <= buf.len(),
        buf.len() > 0 && buf[0] != 27 ==> key_of(buf + more) == key_of(buf),
        key_of(buf) is Some && !(buf.len() == 2 && buf[1] == 79) ==> key_of(buf + more) == key_of(
            buf,
        ),
        key_of(buf) is None ==> buf.len() == 0 || buf == seq![27u8] || (buf.len() >= 2 && buf[0]
            == 27 && buf[1] == 91 && csi_end(buf, 2) >= buf.len()),
{
    lemma_csi_end_bounds(buf, 2);
    if buf.len() > 0 && buf[0] != 27 {
        assert((buf + more)[0] == buf[0]);
    }
    if key_of(buf) is Some && !(buf.len() == 2 && buf[1] == 79) {
        let b2 = buf + more;
        assert(b2[0] == buf[0]);
        if buf.len() >= 2 {
            assert(b2[1] == buf[1]);
        }
        if buf.len() >= 3 {
            assert(b2[2] == buf[2]);
        }
        if buf.len() >= 2 && buf[0] == 27 && buf[1] == 91 {
            lemma_csi_end_extend(buf, more, 2);
            let j = csi_end(buf, 2);
            assert(b2.subrange(0, j + 1) =~= buf.subrange(0, j + 1));
            assert(b2[j] == buf[j]);
        }
    }
    if key_of(buf) is None && buf.len() == 1 {
        assert(buf =~= seq![27u8]);
    }
}

/// Where the control sequence ends does not depend on bytes after its
/// final byte.
proof fn lemma_csi_end_extend(buf: Seq<u8>, more: Seq<u8>, i: int)
    requires
        0 <= i,
        csi_end(buf, i) < buf.len(),
    ensures
        csi_end(buf + more, i) == csi_end(buf, i),
    decreases buf.len() - i,
{
    assert((buf + more)[i] == buf[i]);
    if !(0x40 <= buf[i] <= 0x7E) {
        lemma_csi_end_extend(buf, more, i + 1);
    }
}

fn plain_key_exec(b: u8) -> (k: Key)
    ensures
        k == plain_key(b),
{
    if b == 32 || b == 113 || b == 81 {
        Key::Quit
    } else if b == 106 || b == 110 || b == 10 || b == 13 {
        Key::Next
    } else if b == 98 || b == 107 || b == 112 {
        Key::Prev
    } else if b == 103 {
        Key::First
    } else if b == 71 {
        Key::Last
    } else {
        Key::Unknown
    }
}

fn arrow_key_exec(b: u8) -> (k: Key)
    ensures
        k == arrow_key(b),
{
    if b == 65 || b == 68 {
        Key::Prev
    } else if b == 66 || b == 67 {
        Key::Next
    } else if b == 72 {
        Key::First
    } else if b == 70 {
        Key::Last
    } else {
        Key::Unknown
    }
}

/// Whether the control sequence `buf[0..=j]` is `ESC [ d ~`.
fn is_tilde_seq(buf: &[u8], j: usize, d: u8) -> (b: bool)
    requires
        j < buf@.len(),
        2 <= j,
        buf@[0] == 27,
        buf@[1] == 91,
        buf@[j as int] == 126,
    ensures
        b == (buf@.subrange(0, j + 1) == seq![27u8, 91u8, d, 126u8]),
{
    let r = j == 3 && buf[2] == d;
    assert(r == (buf@.subrange(0, j + 1) =~= seq![27u8, 91u8, d, 126u8]));
    r
}

/// Decodes the first complete key sequence in `buf`; returns the key and
/// the number of bytes it takes, or `None` if the sequence is incomplete.
pub fn parse_key(buf: &[u8]) -> (r: Option<(Key, usize)>)
    ensures
        match r {
            Some((k, n)) => key_of(buf@) == Some((k, n as int)),
            None => key_of(buf@) is None,
        },
{
    let len = buf.len();
    if len == 0 {
        return None;
    }
    let first = buf[0];
    if first != 27 {
        return Some((plain_key_exec(first), 1));
    }
    if len < 2 {
        return None;
    }
    if buf[1] == 79 && len >= 3 {
        return Some((arrow_key_exec(buf[2]), 3));
    }
    if buf[1] == 91 {
        let mut i: usize = 2;
        while i < len
            invariant
                2 <= i <= len,
                len == buf@.len(),
                buf@[0] == 27,
                buf@[1] == 91,
                csi_end(buf@, 2) == csi_end(buf@, i as int),
            decreases len - i,
        {
            let b = buf[i];
            if 0x40 <= b && b <= 0x7E {
                let key = if b == 126 {
                    if is_tilde_seq(buf, i, 49) {
                        Key::First
                    } else if is_tilde_seq(buf, i, 52) {
                        Key::Last
                    } else {
                        Key::Unknown
                    }
                } else {
                    arrow_key_exec(b)
                };
                assert(csi_end(buf@, i as int) == i);
                assert(key == csi_key(buf@, i as int));
                return Some((key, i + 1));
            }
            i = i + 1;
        }
        return None;
    }
    Some((Key::Unknown, 2))
}

/// Takes the first complete key off the front of `buf`, or leaves `buf`
/// alone and returns `None` if it holds no complete key yet.
pub fn read_key(buf: &mut Vec<u8>) -> (k: Option<Key>)
    ensures
        match key_of(old(buf)@) {
            Some((key, n)) => k == Some(key) && final(buf)@ == old(buf)@.skip(n),
            None => k is None && final(buf)@ == old(buf)@,
        },
{
    match parse_key(buf.as_slice()) {
        Some((key, consumed)) => {
            let mut rest: Vec<u8> = Vec::new();
            let mut i = consumed;
            while i < buf.len()
                invariant
                    consumed <= i <= buf@.len(),
                    rest@ =~= buf@.subrange(consumed as int, i as int),
                decreases buf@.len() - i,
            {
                rest.push(buf[i]);
                i = i + 1;
            }
            *buf = rest;
            Some(key)
        },
        None => None,
    }
}

/// Takes one read from the input: an empty read is the end of the input,
/// which quits and leaves the buffer alone; otherwise the bytes read are
/// added to the buffer and the first complete key, if there is one, is
/// taken off its front.
pub fn key_after_read(buf: &mut Vec<u8>, input: &[u8]) -> (k: Option<Key>)
    ensures
        input@.len() == 0 ==> k == Some(Key::Quit) && final(buf)@ == old(buf)@,
        input@.len() > 0 ==> match key_of(old(buf)@ + input@) {
            Some((key, n)) => k == Some(key) && final(buf)@ == (old(buf)@ + input@).skip(n),
            None => k is None && final(buf)@ == old(buf)@ + input@,
        },
{
    if input.len() == 0 {
        return Some(Key::Quit);
    }
    let mut i: usize = 0;
    while i < input.len()
        invariant
            i <= input@.len(),
            buf@ =~= old(buf)@ + input@.take(i as int),
        decreases input@.len() - i,
    {
        buf.push(input[i]);
        i = i + 1;
    }
    assert(input@.take(input@.len() as int) =~= input@);
    read_key(buf)
}

/// What the viewer does after a key press.
#[derive(Clone, Copy, Debug, PartialEq, Eq, Structural)]
pub enum KeyAction {
    /// Leave the pager.
    Quit,
    /// The cursor or the pages changed: draw the current page again.
    Redraw,
    /// Nothing to draw.
    Stay,
}

/// What a key press does to the pager, and what the viewer does next.
pub open spec fn key_rel<F: Fn(&Vec<u8>, &TermCaps, usize, usize) -> Vec<Vec<u8>>>(
    key: Key,
    render: F,
    markdown: Vec<u8>,
    caps: TermCaps,
    pre: PagerView,
    post: PagerView,
    action: KeyAction,
) -> bool {
    match key {
        Key::Quit => post == pre && action == KeyAction::Quit,
        Key::Next => exists|moved: bool|
            #[trigger] next_rel(render, markdown, caps, pre, post, moved) && action == if moved {
                KeyAction::Redraw
            } else {
                KeyAction::Stay
            },
        Key::Prev => (post, action == KeyAction::Redraw) == prev_of(pre) && action
            != KeyAction::Quit,
        Key::First => go_to_rel(render, markdown, caps, pre, 0, post) && action
            == KeyAction::Redraw,
        Key::Last => last_rel(render, markdown, caps, pre, post) && action == KeyAction::Redraw,
        Key::Unknown => post == pre && action == KeyAction::Stay,
    }
}

/// Applies a key press to the pager.
pub fn handle_key<F>(key: Key, state: &mut PagerState, render: &F) -> (action: KeyAction)
    where
        F: Fn(&Vec<u8>, &TermCaps, usize, usize) -> Vec<Vec<u8>>,
    requires
        old(state)@.wf(),
        old(state)@.current < isize::MAX,
        renders_anything(*render),
    ensures
        final(state)@.wf(),
        final(state).source() == old(state).source(),
        final(state).term_caps() == old(state).term_caps(),
        key_rel(
            key,
            *render,
            old(state).source(),
            old(state).term_caps(),
            old(state)@,
            final(state)@,
            action,
        ),
{
    match key {
        Key::Quit => KeyAction::Quit,
        Key::Next => {
            let moved = state.next_page(render);
            if moved {
                KeyAction::Redraw
            } else {
                KeyAction::Stay
            }
        },
        Key::Prev => {
            if state.prev_page() {
                KeyAction::Redraw
            } else {
                KeyAction::Stay
            }
        },
        Key::First => {
            state.go_to(0, render);
            KeyAction::Redraw
        },
        Key::Last => {
            state.go_to_last(render);
            KeyAction::Redraw
        },
        Key::Unknown => KeyAction::Stay,
    }
}

/// The screen for the pager's state: clear the screen, drop the stored
/// images, a status line with the page number, the page count (`?` while
/// it is unknown), the key help and a watch marker, then the page itself.
pub open spec fn frame(v: PagerView, watching: bool) -> Seq<u8> {
    "\x1b[2J\x1b[H".spec_bytes() + delete_images_escape() + "mdx: page ".spec_bytes()
        + decimal((v.current + 1) as nat) + " / ".spec_bytes() + (if v.exhausted {
        decimal(v.pages.len())
    } else {
        "?".spec_bytes()
    }) + "  (↓/→: next, ↑/←: prev, g/G: first/last, space/q: quit)".spec_bytes() + (if watching {
        " [watch]".spec_bytes()
    } else {
        Seq::empty()
    }) + "\r\n".spec_bytes() + (if 0 <= v.current < v.pages.len() && v.pages[v.current] is Some {
        v.pages[v.current]->0
    } else {
        "(page not loaded)\r\n".spec_bytes()
    })
}

/// The bytes that draw the current page and its status line.
pub fn display_current(state: &PagerState, watching: bool) -> (out: Vec<u8>)
    requires
        state@.wf(),
    ensures
        out@ == frame(state@, watching),
{
    let mut out: Vec<u8> = Vec::new();
    append_bytes(&mut out, "\x1b[2J\x1b[H".as_bytes());
    let del = kitty_delete_all_images_escape();
    append_bytes(&mut out, del.as_slice());
    append_bytes(&mut out, "mdx: page ".as_bytes());
    let total = state.len();
    let cur = state.current();
    assert(cur == 0 || cur < total);
    append_decimal(&mut out, (cur + 1) as u64);
    append_bytes(&mut out, " / ".as_bytes());
    if state.is_exhausted() {
        append_decimal(&mut out, total as u64);
    } else {
        append_bytes(&mut out, "?".as_bytes());
    }
    append_bytes(&mut out, "  (↓/→: next, ↑/←: prev, g/G: first/last, space/q: quit)".as_bytes());
    if watching {
        append_bytes(&mut out, " [watch]".as_bytes());
    }
    append_bytes(&mut out, "\r\n".as_bytes());
    match state.current_page() {
        Some(page) => append_bytes(&mut out, page),
        None => append_bytes(&mut out, "(page not loaded)\r\n".as_bytes()),
    }
    proof {
        let v = state@;
        assert(out@ =~= frame(v, watching));
    }
    out
}

/// What each key does, whatever the renderer returns: Quit leaves the
/// pager alone and quits; an unknown key leaves it alone and draws
/// nothing; Prev moves the cursor one slot back, keeping the pages, and
/// redraws (on the first slot it does nothing); Next moves the cursor one
/// slot on and redraws, or leaves it and draws nothing, never dropping a
/// rendered page; First puts the cursor on the first slot and Last on the
/// last, both redrawing.
pub proof fn lemma_key_effects<F: Fn(&Vec<u8>, &TermCaps, usize, usize) -> Vec<Vec<u8>>>(
    key: Key,
    render: F,
    markdown: Vec<u8>,
    caps: TermCaps,
    pre: PagerView,
    post: PagerView,
    action: KeyAction,
)
    requires
        pre.wf(),
        key_rel(key, render, markdown, caps, pre, post, action),
    ensures
        key == Key::Quit ==> post == pre && action == KeyAction::Quit,
        key == Key::Unknown ==> post == pre && action == KeyAction::Stay,
        key == Key::Prev && pre.current > 0 ==> post.pages == pre.pages && post.exhausted
            == pre.exhausted && post.current == pre.current - 1 && action == KeyAction::Redraw,
        key == Key::Prev && pre.current == 0 ==> post == pre && action == KeyAction::Stay,
        key == Key::Next ==> (post.current == pre.current + 1 && action == KeyAction::Redraw) || (
        post.current == pre.current && action == KeyAction::Stay),
        key == Key::Next ==> post.current < post.pages.len() || post.current == 0,
        key == Key::Next ==> (action == KeyAction::Redraw <==> pre.current + 1 < post.pages.len()),
        key == Key::Next && action == KeyAction::Stay && needs_load(pre, pre.current + 1)
            ==> post.exhausted,
        key == Key::Next ==> forall|i: int|
            0 <= i < pre.pages.len() && pre.pages[i] is Some ==> post.pages[i] is Some,
        key == Key::First ==> post.current == 0 && action == KeyAction::Redraw,
        key == Key::Last ==> action == KeyAction::Redraw && (post.pages.len() == 0
            || post.current == post.pages.len() - 1),
        key == Key::Last ==> post.exhausted || post.pages.len() > isize::MAX - 16,
{
    match key {
        Key::Next => {
            let moved = choose|moved: bool|
                #[trigger] next_rel(render, markdown, caps, pre, post, moved) && action == if moved {
                    KeyAction::Redraw
                } else {
                    KeyAction::Stay
                };
            let mid = choose|mid: PagerView|
                {
                    &&& #[trigger] load_step(render, markdown, caps, pre, pre.current + 1, mid)
                    &&& moved == (mid.current + 1 < mid.pages.len())
                    &&& post == if moved {
                        at(mid, mid.current + 1)
                    } else {
                        mid
                    }
                };
            lemma_load_keeps_rendered(render, markdown, caps, pre, pre.current + 1, mid);
            if needs_load(pre, pre.current + 1) {
                let first = batch_first(pre.current + 1);
                assert(first <= pre.current + 1 < first + BATCH_SIZE);
                let r = choose|r: Vec<Vec<u8>>|
                    #[trigger] render.ensures(
                        (&markdown, &caps, (first + 1) as usize, (first + BATCH_SIZE) as usize),
                        r,
                    ) && mid == store(pre, first, batch_view(r@));
                let rendered = batch_view(r@);
                if rendered.len() >= BATCH_SIZE {
                    assert(mid.pages.len() >= first + BATCH_SIZE);
                }
            }
        },
        Key::Last => {
            let (n, loaded) = choose|n: nat, loaded: PagerView|
                {
                    &&& #[trigger] probe_loads(
                        render,
                        markdown,
                        caps,
                        pre,
                        pre.pages.len() as int,
                        loaded,
                        n,
                    )
                    &&& loaded.exhausted || pre.pages.len() + BATCH_SIZE * n > isize::MAX
                    &&& post == at(
                        loaded,
                        if loaded.pages.len() == 0 {
                            loaded.current
                        } else {
                            loaded.pages.len() - 1
                        },
                    )
                };
        },
        _ => {},
    }
}

/// The status line shows the page count whenever the end of the document
/// is known, wherever the cursor is, and `?` only while it is not known:
/// the screen starts with the clear and delete sequences and
/// `mdx: page <cursor + 1> / `, followed by the count (or `?`) and then
/// the key help.
pub proof fn lemma_status_line(v: PagerView, watching: bool)
    ensures
        ({
            let head = "\x1b[2J\x1b[H".spec_bytes() + delete_images_escape()
                + "mdx: page ".spec_bytes() + decimal((v.current + 1) as nat) + " / ".spec_bytes();
            let total = if v.exhausted {
                decimal(v.pages.len())
            } else {
                "?".spec_bytes()
            };
            let help = "  (↓/→: next, ↑/←: prev, g/G: first/last, space/q: quit)".spec_bytes();
            let f = frame(v, watching);
            &&& f.len() >= head.len() + total.len() + help.len()
            &&& f.subrange(0, head.len() as int) == head
            &&& f.subrange(head.len() as int, (head.len() + total.len()) as int) == total
            &&& f.subrange((head.len() + total.len()) as int, (head.len() + total.len() + help.len()) as int) == help
        }),
{
    let head = "\x1b[2J\x1b[H".spec_bytes() + delete_images_escape() + "mdx: page ".spec_bytes()
        + decimal((v.current + 1) as nat) + " / ".spec_bytes();
    let total = if v.exhausted {
        decimal(v.pages.len())
    } else {
        "?".spec_bytes()
    };
    let help = "  (↓/→: next, ↑/←: prev, g/G: first/last, space/q: quit)".spec_bytes();
    let rest = (if watching {
        " [watch]".spec_bytes()
    } else {
        Seq::empty()
    }) + "\r\n".spec_bytes() + (if 0 <= v.current < v.pages.len() && v.pages[v.current] is Some {
        v.pages[v.current]->0
    } else {
        "(page not loaded)\r\n".spec_bytes()
    });
    let f = frame(v, watching);
    assert(f =~= head + total + help + rest);
    assert(f.subrange(0, head.len() as int) =~= head);
    assert(f.subrange(head.len() as int, (head.len() + total.len()) as int) =~= total);
    assert(f.subrange((head.len() + total.len()) as int, (head.len() + total.len() + help.len()) as int) =~= help);
}

} // verus!
