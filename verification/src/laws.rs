//! What holds of chapters whose pages are written with the pen.

use vstd::prelude::*;
use crate::chapter::{
    allocated, deallocated, first_releasing, last_with_room, lemma_first_releasing,
    lemma_last_with_room, pages_wf,
};
use crate::binding::{lemma_allocated_wf, NotebookView};
use crate::layout::Layout;
use crate::page::{PageView, Pen, Utensil};

verus! {

broadcast use {Pen::lemma_pen, Pen::lemma_at, Layout::lemma_of};

/// The page in which placing `t_size` bytes aligned to `t_align` puts them: the last page
/// in which they can be placed, or else a new page behind all others.
pub open spec fn landing<U: Utensil>(before: Seq<PageView<U>>, t_size: usize, t_align: usize)
    -> int {
    match last_with_room(before, t_size, t_align) {
        Some(i) => i,
        None => before.len() as int,
    }
}

/// The number of bytes written so far to page `i` of `pages`; none if there is no such
/// page yet.
pub open spec fn used_in(pages: Seq<PageView<Pen>>, i: int) -> int {
    if 0 <= i < pages.len() {
        pages[i].utensil.used() as int
    } else {
        0
    }
}

/// Two runs of bytes placed one after the other with the same pen lie one behind the
/// other: the second starts where the first ends.
pub proof fn lemma_pen_bumps(pen: Pen, first: usize, second: usize)
    requires
        pen.wf(),
        pen.can_place(first),
        pen.placed(first).can_place(second),
    ensures
        pen.placed(first).place_addr(second) == pen.place_addr(first) + first,
{
}

/// What is placed in a chapter lies right behind what its page held before, and the page
/// then holds that much more. No other page changes.
pub proof fn lemma_bump_step(
    before: Seq<PageView<Pen>>,
    after: Seq<PageView<Pen>>,
    t_size: usize,
    t_align: usize,
    page_bytes: nat,
    p: usize,
)
    requires
        pages_wf(before),
        allocated(before, after, t_size, t_align, page_bytes, Some(p)),
    ensures
        0 <= landing(before, t_size, t_align) < after.len(),
        p == after[landing(before, t_size, t_align)].base + used_in(before, landing(before, t_size, t_align)),
        used_in(after, landing(before, t_size, t_align)) == used_in(before, landing(before, t_size, t_align))
            + t_size,
        forall|j: int|
            0 <= j < before.len() && j != landing(before, t_size, t_align) ==> #[trigger] after[j]
                == before[j],
        forall|j: int| 0 <= j < before.len() ==> (#[trigger] after[j]).base == before[j].base,
{
    lemma_last_with_room(before, t_size, t_align);
    let i = landing(before, t_size, t_align);
    if i < before.len() {
        assert(before[i].wf());
    } else {
        let layout = Layout::of(page_bytes as usize, t_align);
        Pen::lemma_fresh(after.last().base, layout);
        assert forall|j: int| 0 <= j < before.len() implies #[trigger] after[j] == before[j] by {
            assert(after.drop_last()[j] == after[j]);
        }
    }
}

/// The number of bytes written to the pages of `pages`.
pub open spec fn total_used(pages: Seq<PageView<Pen>>) -> int
    decreases pages.len(),
{
    if pages.len() == 0 {
        0
    } else {
        total_used(pages.drop_last()) + pages.last().utensil.used()
    }
}

/// The number of bytes that the first `m` pages of `pages` can hold.
pub open spec fn total_capacity(pages: Seq<PageView<Pen>>, m: int) -> int
    decreases m,
{
    if m <= 0 {
        0
    } else {
        total_capacity(pages, m - 1) + pages[m - 1].bytes.len()
    }
}

/// Whether the pages hold values of `t_size` bytes aligned to `t_align` and nothing else,
/// with no room left but in the last page: each page is aligned to `t_align`, can hold a
/// whole number of values, holds at least one, and every page but the last is full.
pub open spec fn packed(pages: Seq<PageView<Pen>>, t_size: usize, t_align: usize) -> bool {
    forall|i: int|
        0 <= i < pages.len() ==> {
            &&& (#[trigger] pages[i]).base as nat % t_align as nat == 0
            &&& pages[i].bytes.len() % t_size as nat == 0
            &&& pages[i].utensil.used() as nat % t_size as nat == 0
            &&& pages[i].utensil.used() > 0
            &&& i < pages.len() - 1 ==> pages[i].utensil.used() == pages[i].bytes.len()
        }
}

/// Placing one more value of `t_size` bytes, a multiple of its alignment `t_align`, in
/// packed pages, where a new page would hold a whole number of values, leaves the pages
/// packed, with `t_size` more bytes written.
pub proof fn lemma_packed_step(
    before: Seq<PageView<Pen>>,
    after: Seq<PageView<Pen>>,
    t_size: usize,
    t_align: usize,
    page_bytes: nat,
    p: usize,
)
    requires
        t_size > 0,
        t_align > 0,
        t_size as nat % t_align as nat == 0,
        pages_wf(before),
        packed(before, t_size, t_align),
        page_bytes % t_size as nat == 0,
        allocated(before, after, t_size, t_align, page_bytes, Some(p)),
    ensures
        pages_wf(after),
        packed(after, t_size, t_align),
        total_used(after) == total_used(before) + t_size,
{
    crate::chapter::lemma_allocated_within(before, after, t_size, t_align, page_bytes, Some(p));
    lemma_bump_step(before, after, t_size, t_align, page_bytes, p);
    lemma_last_with_room(before, t_size, t_align);
    let i = landing(before, t_size, t_align);
    if i < before.len() {
        // Only the last page has room: every other page is full.
        assert(before[i].wf());
        assert(i == before.len() - 1) by {
            if i < before.len() - 1 {
                assert(before[i].utensil.used() == before[i].bytes.len());
            }
        }
        assert(after.len() == before.len());
        assert(after.drop_last() =~= before.drop_last());
        assert forall|j: int| 0 <= j < after.len() implies {
            &&& (#[trigger] after[j]).base as nat % t_align as nat == 0
            &&& after[j].bytes.len() % t_size as nat == 0
            &&& after[j].utensil.used() as nat % t_size as nat == 0
            &&& after[j].utensil.used() > 0
            &&& j < after.len() - 1 ==> after[j].utensil.used() == after[j].bytes.len()
        } by {
            assert(before[j].wf());
            if j == i {
                crate::page::lemma_sum_of_multiples(
                    before[i].utensil.used() as nat,
                    t_size as nat,
                    t_size as nat,
                );
            }
        }
    } else {
        // No page has room: the last page, if there is one, is full too.
        assert(after.drop_last() == before);
        let layout = Layout::of(page_bytes as usize, t_align);
        Pen::lemma_fresh(after.last().base, layout);
        vstd::arithmetic::div_mod::lemma_mod_self_0(t_size as int);
        assert forall|j: int| 0 <= j < after.len() implies {
            &&& (#[trigger] after[j]).base as nat % t_align as nat == 0
            &&& after[j].bytes.len() % t_size as nat == 0
            &&& after[j].utensil.used() as nat % t_size as nat == 0
            &&& after[j].utensil.used() > 0
            &&& j < after.len() - 1 ==> after[j].utensil.used() == after[j].bytes.len()
        } by {
            if j < before.len() {
                assert(after[j] == before[j]);
                assert(before[j].wf());
                lemma_full_without_room(before[j], t_size, t_align);
            }
        }
    }
}

/// A page that holds a whole number of values of `t_size` bytes aligned to `t_align`, can
/// hold a whole number of them, and cannot take one more, is full.
proof fn lemma_full_without_room(page: PageView<Pen>, t_size: usize, t_align: usize)
    requires
        t_size > 0,
        t_align > 0,
        t_size as nat % t_align as nat == 0,
        page.wf(),
        page.base as nat % t_align as nat == 0,
        page.bytes.len() % t_size as nat == 0,
        page.utensil.used() as nat % t_size as nat == 0,
        !page.fits(t_size, t_align),
    ensures
        page.utensil.used() == page.bytes.len(),
{
    if page.utensil.used() > 0 {
        crate::chapter::lemma_multiple_of_multiple(
            page.utensil.used() as nat,
            t_size as nat,
            t_align as nat,
        );
    }
    crate::page::lemma_sum_of_multiples(
        page.base as nat,
        page.utensil.used() as nat,
        t_align as nat,
    );
    assert(!page.utensil.can_place(t_size));
    let cap = page.bytes.len() as int;
    let used = page.utensil.used() as int;
    let t = t_size as int;
    vstd::arithmetic::div_mod::lemma_fundamental_div_mod(cap, t);
    vstd::arithmetic::div_mod::lemma_fundamental_div_mod(used, t);
    let a = cap / t;
    let b = used / t;
    if used < cap {
        assert(b < a) by (nonlinear_arith)
            requires
                used < cap,
                cap == t * a,
                used == t * b,
                t > 0,
        ;
        assert(cap - used >= t) by (nonlinear_arith)
            requires
                b < a,
                cap == t * a,
                used == t * b,
                t > 0,
        ;
    }
}

/// The capacity of the first `m` pages does not depend on the pages behind them.
proof fn lemma_total_capacity_prefix(pages: Seq<PageView<Pen>>, m: int)
    requires
        0 <= m < pages.len(),
    ensures
        total_capacity(pages, m) == total_capacity(pages.drop_last(), m),
    decreases m,
{
    if m > 0 {
        lemma_total_capacity_prefix(pages, m - 1);
        assert(pages.drop_last()[m - 1] == pages[m - 1]);
    }
}

/// The capacity of the first pages grows with their number.
proof fn lemma_total_capacity_grows(pages: Seq<PageView<Pen>>, m: int, n: int)
    requires
        0 <= m <= n,
    ensures
        total_capacity(pages, m) <= total_capacity(pages, n),
    decreases n - m,
{
    if m < n {
        lemma_total_capacity_grows(pages, m, n - 1);
    }
}

/// In packed pages, all pages but the last are full, and the last holds something: what is
/// written exceeds what the pages before the last can hold, and fits in all of them.
pub proof fn lemma_packed_bounds(pages: Seq<PageView<Pen>>, t_size: usize, t_align: usize)
    requires
        pages_wf(pages),
        packed(pages, t_size, t_align),
    ensures
        total_used(pages) <= total_capacity(pages, pages.len() as int),
        pages.len() > 0 ==> total_used(pages) > total_capacity(pages, pages.len() - 1),
        pages.len() > 0 ==> total_used(pages.drop_last()) == total_capacity(
            pages,
            pages.len() - 1,
        ),
    decreases pages.len(),
{
    if pages.len() > 0 {
        let rest = pages.drop_last();
        assert forall|i: int| 0 <= i < rest.len() implies (#[trigger] rest[i]).wf() by {
            assert(pages[i].wf());
        }
        lemma_total_capacity_prefix(pages, pages.len() - 1);
        let last = pages.last();
        assert(last.wf());
        assert(last == pages[pages.len() - 1]);
        assert(0 < last.utensil.used() <= last.bytes.len());
        // The pages before the last are all full.
        lemma_all_full(rest, pages, t_size, t_align);
        assert(total_used(pages) == total_used(rest) + last.utensil.used());
        assert(total_capacity(pages, pages.len() as int) == total_capacity(
            pages,
            pages.len() - 1,
        ) + last.bytes.len());
    }
}

/// Where every page of `rest`, the pages of `pages` before the last, is full, what is
/// written to them is what they can hold.
proof fn lemma_all_full(
    rest: Seq<PageView<Pen>>,
    pages: Seq<PageView<Pen>>,
    t_size: usize,
    t_align: usize,
)
    requires
        rest.len() <= pages.len() - 1,
        forall|i: int| 0 <= i < rest.len() ==> rest[i] == pages[i],
        packed(pages, t_size, t_align),
    ensures
        total_used(rest) == total_capacity(rest, rest.len() as int),
    decreases rest.len(),
{
    if rest.len() > 0 {
        let shorter = rest.drop_last();
        assert forall|i: int| 0 <= i < shorter.len() implies shorter[i] == pages[i] by {
            assert(shorter[i] == rest[i]);
        }
        lemma_all_full(shorter, pages, t_size, t_align);
        lemma_total_capacity_prefix(rest, rest.len() - 1);
        assert(rest.last() == pages[rest.len() - 1]);
        assert(pages[rest.len() - 1].utensil.used() == pages[rest.len() - 1].bytes.len());
    }
}

/// The number of pages that `k` values of `t_size` bytes take: packed pages that hold `k`
/// values are as few as can hold them. All of them together can hold the values, and no
/// smaller number of them, counted from the first, can.
pub proof fn lemma_packed_count(pages: Seq<PageView<Pen>>, t_size: usize, t_align: usize, k: nat)
    requires
        pages_wf(pages),
        packed(pages, t_size, t_align),
        total_used(pages) == k * t_size,
    ensures
        total_capacity(pages, pages.len() as int) >= k * t_size,
        forall|m: int| 0 <= m < pages.len() ==> total_capacity(pages, m) < k * t_size,
{
    lemma_packed_bounds(pages, t_size, t_align);
    assert forall|m: int| 0 <= m < pages.len() implies total_capacity(pages, m) < k * t_size by {
        lemma_total_capacity_grows(pages, m, pages.len() - 1);
    }
}

/// The pages of a chapter after each of a run of placements: `states[0]` before the first,
/// `states[j + 1]` after placement `j`, which put `sizes[j]` bytes aligned to `aligns[j]` at
/// `slots[j]`, where a new page would have had `page_bytes[j]` bytes.
pub open spec fn placements(
    states: Seq<Seq<PageView<Pen>>>,
    slots: Seq<usize>,
    sizes: Seq<usize>,
    aligns: Seq<usize>,
    page_bytes: Seq<nat>,
) -> bool {
    &&& states.len() == slots.len() + 1
    &&& sizes.len() == slots.len()
    &&& aligns.len() == slots.len()
    &&& page_bytes.len() == slots.len()
    &&& forall|j: int|
        0 <= j < slots.len() ==> allocated(
            #[trigger] states[j],
            states[j + 1],
            sizes[j],
            aligns[j],
            page_bytes[j],
            Some(slots[j]),
        )
}

/// Through a run of placements the pages stay valid, and no page is lost.
pub proof fn lemma_placements_wf(
    states: Seq<Seq<PageView<Pen>>>,
    slots: Seq<usize>,
    sizes: Seq<usize>,
    aligns: Seq<usize>,
    page_bytes: Seq<nat>,
    m: int,
)
    requires
        placements(states, slots, sizes, aligns, page_bytes),
        pages_wf(states[0]),
        0 <= m <= slots.len(),
    ensures
        pages_wf(states[m]),
        states[0].len() <= states[m].len(),
    decreases m,
{
    if m > 0 {
        lemma_placements_wf(states, slots, sizes, aligns, page_bytes, m - 1);
        assert(allocated(
            states[m - 1],
            states[m - 1 + 1],
            sizes[m - 1],
            aligns[m - 1],
            page_bytes[m - 1],
            Some(slots[m - 1]),
        ));
        crate::chapter::lemma_allocated_within(
            states[m - 1],
            states[m],
            sizes[m - 1],
            aligns[m - 1],
            page_bytes[m - 1],
            Some(slots[m - 1]),
        );
        lemma_bump_step(
            states[m - 1],
            states[m],
            sizes[m - 1],
            aligns[m - 1],
            page_bytes[m - 1],
            slots[m - 1],
        );
    }
}

/// While no placement goes to page `i`, the page stays where it is and holds what it held.
proof fn lemma_page_untouched(
    states: Seq<Seq<PageView<Pen>>>,
    slots: Seq<usize>,
    sizes: Seq<usize>,
    aligns: Seq<usize>,
    page_bytes: Seq<nat>,
    i: int,
    from: int,
    to: int,
)
    requires
        placements(states, slots, sizes, aligns, page_bytes),
        pages_wf(states[0]),
        0 <= from <= to <= slots.len(),
        0 <= i < states[from].len(),
        forall|m: int| from <= m < to ==> landing(#[trigger] states[m], sizes[m], aligns[m]) != i,
    ensures
        i < states[to].len(),
        states[to][i] == states[from][i],
    decreases to - from,
{
    if from < to {
        lemma_page_untouched(states, slots, sizes, aligns, page_bytes, i, from, to - 1);
        lemma_placements_wf(states, slots, sizes, aligns, page_bytes, to - 1);
        assert(allocated(
            states[to - 1],
            states[to - 1 + 1],
            sizes[to - 1],
            aligns[to - 1],
            page_bytes[to - 1],
            Some(slots[to - 1]),
        ));
        assert(landing(states[to - 1], sizes[to - 1], aligns[to - 1]) != i);
        lemma_bump_step(
            states[to - 1],
            states[to],
            sizes[to - 1],
            aligns[to - 1],
            page_bytes[to - 1],
            slots[to - 1],
        );
        crate::chapter::lemma_allocated_within(
            states[to - 1],
            states[to],
            sizes[to - 1],
            aligns[to - 1],
            page_bytes[to - 1],
            Some(slots[to - 1]),
        );
    }
}

/// Bump monotonicity: in a run of placements in a chapter, of two placements that go to
/// the same page with none between them that goes to that page, the second lies behind
/// the first by exactly the size of the first.
pub proof fn lemma_bump_monotonic(
    states: Seq<Seq<PageView<Pen>>>,
    slots: Seq<usize>,
    sizes: Seq<usize>,
    aligns: Seq<usize>,
    page_bytes: Seq<nat>,
    first: int,
    second: int,
)
    requires
        placements(states, slots, sizes, aligns, page_bytes),
        pages_wf(states[0]),
        0 <= first < second < slots.len(),
        landing(states[first], sizes[first], aligns[first]) == landing(states[second], sizes[second], aligns[second]),
        forall|m: int|
            first < m < second ==> landing(#[trigger] states[m], sizes[m], aligns[m]) != landing(
                states[first],
                sizes[first],
                aligns[first],
            ),
    ensures
        slots[second] == slots[first] + sizes[first],
{
    let i = landing(states[first], sizes[first], aligns[first]);
    lemma_placements_wf(states, slots, sizes, aligns, page_bytes, first);
    lemma_placements_wf(states, slots, sizes, aligns, page_bytes, second);
    assert(allocated(
        states[first],
        states[first + 1],
        sizes[first],
        aligns[first],
        page_bytes[first],
        Some(slots[first]),
    ));
    assert(allocated(
        states[second],
        states[second + 1],
        sizes[second],
        aligns[second],
        page_bytes[second],
        Some(slots[second]),
    ));
    lemma_bump_step(
        states[first],
        states[first + 1],
        sizes[first],
        aligns[first],
        page_bytes[first],
        slots[first],
    );
    lemma_page_untouched(states, slots, sizes, aligns, page_bytes, i, first + 1, second);
    lemma_bump_step(
        states[second],
        states[second + 1],
        sizes[second],
        aligns[second],
        page_bytes[second],
        slots[second],
    );
}

/// After `k` successful placements of values of `t_size` bytes, a multiple of their
/// alignment `t_align`, in a chapter that had no pages, where every page holds a whole
/// number of values, the chapter has the smallest number of pages whose capacities add up
/// to `k` values.
pub proof fn lemma_page_count(
    states: Seq<Seq<PageView<Pen>>>,
    slots: Seq<usize>,
    sizes: Seq<usize>,
    aligns: Seq<usize>,
    page_bytes: Seq<nat>,
    t_size: usize,
    t_align: usize,
)
    requires
        t_size > 0,
        t_align > 0,
        t_size as nat % t_align as nat == 0,
        placements(states, slots, sizes, aligns, page_bytes),
        states[0].len() == 0,
        forall|j: int| 0 <= j < sizes.len() ==> #[trigger] sizes[j] == t_size,
        forall|j: int| 0 <= j < aligns.len() ==> #[trigger] aligns[j] == t_align,
        forall|j: int| 0 <= j < page_bytes.len() ==> #[trigger] page_bytes[j] % t_size as nat == 0,
    ensures
        pages_wf(states.last()),
        packed(states.last(), t_size, t_align),
        total_used(states.last()) == slots.len() * t_size,
        total_capacity(states.last(), states.last().len() as int) >= slots.len() * t_size,
        forall|m: int|
            0 <= m < states.last().len() ==> total_capacity(states.last(), m) < slots.len()
                * t_size,
    decreases slots.len(),
{
    let k = slots.len();
    if k == 0 {
        assert(states.last() == states[0]);
        assert(0 * t_size == 0) by (nonlinear_arith);
    } else {
        let shorter = states.drop_last();
        assert forall|j: int| 0 <= j < k - 1 implies allocated(
            #[trigger] shorter[j],
            shorter[j + 1],
            sizes.drop_last()[j],
            aligns.drop_last()[j],
            page_bytes.drop_last()[j],
            Some(slots.drop_last()[j]),
        ) by {
            assert(allocated(
                states[j],
                states[j + 1],
                sizes[j],
                aligns[j],
                page_bytes[j],
                Some(slots[j]),
            ));
        }
        assert(shorter[0] == states[0]);
        assert forall|j: int| 0 <= j < k - 1 implies #[trigger] sizes.drop_last()[j]
            == t_size by {
            assert(sizes[j] == t_size);
        }
        assert forall|j: int| 0 <= j < k - 1 implies #[trigger] aligns.drop_last()[j]
            == t_align by {
            assert(aligns[j] == t_align);
        }
        assert forall|j: int| 0 <= j < k - 1 implies #[trigger] page_bytes.drop_last()[j]
            % t_size as nat == 0 by {
            assert(page_bytes[j] % t_size as nat == 0);
        }
        lemma_page_count(
            shorter,
            slots.drop_last(),
            sizes.drop_last(),
            aligns.drop_last(),
            page_bytes.drop_last(),
            t_size,
            t_align,
        );
        assert(shorter.last() == states[k - 1]);
        assert(states.last() == states[k - 1 + 1]);
        assert(sizes[k - 1] == t_size);
        assert(aligns[k - 1] == t_align);
        assert(page_bytes[k - 1] % t_size as nat == 0);
        lemma_packed_step(
            states[k - 1],
            states[k - 1 + 1],
            t_size,
            t_align,
            page_bytes[k - 1],
            slots[k - 1],
        );
        assert(k * t_size == (k - 1) * t_size + t_size) by (nonlinear_arith);
        lemma_packed_count(states.last(), t_size, t_align, k);
    }
}

/// Whether the byte at `a` lies in what was written to the page.
pub open spec fn page_uses(page: PageView<Pen>, a: int) -> bool {
    page.base <= a < page.base + page.utensil.used()
}

/// Whether the byte at `a` was handed out: it lies in what was written to one of the
/// pages.
pub open spec fn in_use(pages: Seq<PageView<Pen>>, a: int) -> bool {
    exists|i: int| 0 <= i < pages.len() && page_uses(#[trigger] pages[i], a)
}

/// No slot is handed out twice: the bytes of what is placed were not handed out before,
/// and afterwards exactly they and the bytes handed out before are handed out.
pub proof fn lemma_slot_is_new(
    before: Seq<PageView<Pen>>,
    after: Seq<PageView<Pen>>,
    t_size: usize,
    t_align: usize,
    page_bytes: nat,
    p: usize,
)
    requires
        pages_wf(before),
        allocated(before, after, t_size, t_align, page_bytes, Some(p)),
    ensures
        forall|a: int| p <= a < p + t_size ==> !in_use(before, a),
        forall|a: int| in_use(after, a) <==> (in_use(before, a) || p <= a < p + t_size),
{
    crate::chapter::lemma_allocated_within(before, after, t_size, t_align, page_bytes, Some(p));
    lemma_bump_step(before, after, t_size, t_align, page_bytes, p);
    lemma_last_with_room(before, t_size, t_align);
    let i = landing(before, t_size, t_align);
    if i >= before.len() {
        Pen::lemma_fresh(after.last().base, Layout::of(page_bytes as usize, t_align));
    }
    assert(after[i].wf());
    assert forall|a: int| p <= a < p + t_size implies !in_use(before, a) by {
        if in_use(before, a) {
            let j = choose|j: int| 0 <= j < before.len() && page_uses(#[trigger] before[j], a);
            assert(before[j].wf());
            if j != i {
                assert(after[j] == before[j]);
                if j < i {
                    assert(after[j].apart(after[i]));
                } else {
                    assert(after[i].apart(after[j]));
                }
            }
        }
    }
    assert forall|a: int| in_use(after, a) <==> (in_use(before, a) || p <= a < p + t_size) by {
        if in_use(after, a) {
            let j = choose|j: int| 0 <= j < after.len() && page_uses(#[trigger] after[j], a);
            if j != i {
                assert(after[j] == before[j]);
                assert(page_uses(before[j], a));
            } else if i < before.len() {
                if a < p {
                    assert(page_uses(before[i], a));
                }
            }
        }
        if in_use(before, a) {
            let j = choose|j: int| 0 <= j < before.len() && page_uses(#[trigger] before[j], a);
            if j != i {
                assert(after[j] == before[j]);
            }
            assert(page_uses(after[j], a));
        }
        if p <= a < p + t_size {
            assert(page_uses(after[i], a));
        }
    }
}

/// The pen takes nothing back: taking back leaves the pages as they were.
pub proof fn lemma_nothing_is_erased(
    before: Seq<PageView<Pen>>,
    after: Seq<PageView<Pen>>,
    ptr: usize,
    r: bool,
)
    requires
        deallocated(before, after, ptr, r),
    ensures
        after == before,
        r == (before.len() > 0),
{
    lemma_first_releasing(before, ptr);
    match first_releasing(before, ptr) {
        Some(i) => {
            assert(after =~= before);
        },
        None => {
            if before.len() > 0 {
                assert(before[0].utensil.can_release(ptr));
            }
        },
    }
}

/// What a run of placements has handed out stays handed out.
proof fn lemma_stays_in_use(
    states: Seq<Seq<PageView<Pen>>>,
    slots: Seq<usize>,
    sizes: Seq<usize>,
    aligns: Seq<usize>,
    page_bytes: Seq<nat>,
    from: int,
    to: int,
    a: int,
)
    requires
        placements(states, slots, sizes, aligns, page_bytes),
        pages_wf(states[0]),
        0 <= from <= to <= slots.len(),
        in_use(states[from], a),
    ensures
        in_use(states[to], a),
    decreases to - from,
{
    if from < to {
        lemma_stays_in_use(states, slots, sizes, aligns, page_bytes, from, to - 1, a);
        lemma_placements_wf(states, slots, sizes, aligns, page_bytes, to - 1);
        assert(allocated(
            states[to - 1],
            states[to - 1 + 1],
            sizes[to - 1],
            aligns[to - 1],
            page_bytes[to - 1],
            Some(slots[to - 1]),
        ));
        lemma_slot_is_new(
            states[to - 1],
            states[to],
            sizes[to - 1],
            aligns[to - 1],
            page_bytes[to - 1],
            slots[to - 1],
        );
    }
}

/// The slots of a run of placements in a chapter lie apart: of two that hold bytes, one
/// ends where or before the other starts.
pub proof fn lemma_slots_apart(
    states: Seq<Seq<PageView<Pen>>>,
    slots: Seq<usize>,
    sizes: Seq<usize>,
    aligns: Seq<usize>,
    page_bytes: Seq<nat>,
    first: int,
    second: int,
)
    requires
        placements(states, slots, sizes, aligns, page_bytes),
        pages_wf(states[0]),
        0 <= first < second < slots.len(),
    ensures
        sizes[first] == 0 || sizes[second] == 0 || slots[first] + sizes[first] <= slots[second]
            || slots[second] + sizes[second] <= slots[first],
{
    lemma_placements_wf(states, slots, sizes, aligns, page_bytes, first);
    lemma_placements_wf(states, slots, sizes, aligns, page_bytes, second);
    assert(allocated(
        states[first],
        states[first + 1],
        sizes[first],
        aligns[first],
        page_bytes[first],
        Some(slots[first]),
    ));
    assert(allocated(
        states[second],
        states[second + 1],
        sizes[second],
        aligns[second],
        page_bytes[second],
        Some(slots[second]),
    ));
    lemma_slot_is_new(
        states[first],
        states[first + 1],
        sizes[first],
        aligns[first],
        page_bytes[first],
        slots[first],
    );
    lemma_slot_is_new(
        states[second],
        states[second + 1],
        sizes[second],
        aligns[second],
        page_bytes[second],
        slots[second],
    );
    if sizes[first] > 0 && sizes[second] > 0 && slots[first] + sizes[first] > slots[second]
        && slots[second] + sizes[second] > slots[first] {
        // The later of the two starts is a byte of both.
        let a: int = if slots[first] <= slots[second] {
            slots[second] as int
        } else {
            slots[first] as int
        };
        assert(in_use(states[first + 1], a));
        lemma_stays_in_use(states, slots, sizes, aligns, page_bytes, first + 1, second, a);
        assert(!in_use(states[second], a));
    }
}

/// Whether the byte at `a` was handed out by the notebook: by one of its chapters.
pub open spec fn book_in_use(book: NotebookView<Pen>, a: int) -> bool {
    exists|c: int| 0 <= c < book.chapters.len() && in_use(#[trigger] book.chapters[c], a)
}

/// No slot of a notebook is handed out twice: the bytes of what is placed were handed out
/// by no chapter before, and afterwards exactly they and the bytes handed out before are
/// handed out.
pub proof fn lemma_book_slot_is_new(
    before: NotebookView<Pen>,
    after: NotebookView<Pen>,
    ch: int,
    t_size: usize,
    t_align: usize,
    p: usize,
)
    requires
        before.wf(),
        before.allocated(after, ch, t_size, t_align, Some(p)),
    ensures
        after.wf(),
        forall|a: int| p <= a < p + t_size ==> !book_in_use(before, a),
        forall|a: int| book_in_use(after, a) <==> (book_in_use(before, a) || p <= a < p + t_size),
{
    let pages = before.chapters[ch];
    let grown = after.chapters[ch];
    let page_bytes = before.next_page_size(ch, t_size, t_align);
    assert(pages_wf(pages));
    lemma_allocated_wf(before, after, ch, t_size, t_align, Some(p));
    lemma_slot_is_new(pages, grown, t_size, t_align, page_bytes, p);
    lemma_bump_step(pages, grown, t_size, t_align, page_bytes, p);
    let i = landing(pages, t_size, t_align);
    assert(pages_wf(grown));
    assert(grown[i].wf());
    assert forall|a: int| p <= a < p + t_size implies !book_in_use(before, a) by {
        if book_in_use(before, a) {
            let c = choose|c: int|
                0 <= c < before.chapters.len() && in_use(#[trigger] before.chapters[c], a);
            if c != ch {
                let j = choose|j: int|
                    0 <= j < before.chapters[c].len() && page_uses(
                        #[trigger] before.chapters[c][j],
                        a,
                    );
                assert(after.chapters[c] == before.chapters[c]);
                assert(pages_wf(after.chapters[c]));
                assert(after.chapters[c][j].wf());
                assert(after.chapters[ch][i].apart(after.chapters[c][j]));
            }
        }
    }
    assert forall|a: int| book_in_use(after, a) <==> (book_in_use(before, a) || p <= a < p
        + t_size) by {
        if book_in_use(after, a) {
            let c = choose|c: int|
                0 <= c < after.chapters.len() && in_use(#[trigger] after.chapters[c], a);
            if c != ch {
                assert(after.chapters[c] == before.chapters[c]);
                assert(in_use(before.chapters[c], a));
            } else if !(p <= a < p + t_size) {
                assert(in_use(before.chapters[ch], a));
            }
        }
        if book_in_use(before, a) {
            let c = choose|c: int|
                0 <= c < before.chapters.len() && in_use(#[trigger] before.chapters[c], a);
            if c != ch {
                assert(after.chapters[c] == before.chapters[c]);
            }
            assert(in_use(after.chapters[c], a));
        }
        if p <= a < p + t_size {
            assert(in_use(after.chapters[ch], a));
        }
    }
}

/// The pen takes nothing back: taking back leaves the notebook as it was.
pub proof fn lemma_book_nothing_is_erased(
    before: NotebookView<Pen>,
    after: NotebookView<Pen>,
    ch: int,
    ptr: usize,
    r: bool,
)
    requires
        before.deallocated(after, ch, ptr, r),
    ensures
        after == before,
        r == (before.chapters[ch].len() > 0),
{
    lemma_nothing_is_erased(before.chapters[ch], after.chapters[ch], ptr, r);
    assert(after.chapters =~= before.chapters);
}

/// The states of a notebook after each of a run of placements: `states[0]` before the
/// first, `states[j + 1]` after placement `j`, which put `sizes[j]` bytes aligned to
/// `aligns[j]` at `slots[j]` in chapter `chapters[j]`.
pub open spec fn book_placements(
    states: Seq<NotebookView<Pen>>,
    chapters: Seq<int>,
    slots: Seq<usize>,
    sizes: Seq<usize>,
    aligns: Seq<usize>,
) -> bool {
    &&& states.len() == slots.len() + 1
    &&& chapters.len() == slots.len()
    &&& sizes.len() == slots.len()
    &&& aligns.len() == slots.len()
    &&& forall|j: int|
        0 <= j < slots.len() ==> (#[trigger] states[j]).allocated(
            states[j + 1],
            chapters[j],
            sizes[j],
            aligns[j],
            Some(slots[j]),
        )
}

/// What a run of placements in a notebook has handed out stays handed out, and the
/// notebook stays valid.
proof fn lemma_book_stays_in_use(
    states: Seq<NotebookView<Pen>>,
    chapters: Seq<int>,
    slots: Seq<usize>,
    sizes: Seq<usize>,
    aligns: Seq<usize>,
    from: int,
    to: int,
    a: int,
)
    requires
        book_placements(states, chapters, slots, sizes, aligns),
        states[from].wf(),
        0 <= from <= to <= slots.len(),
    ensures
        states[to].wf(),
        book_in_use(states[from], a) ==> book_in_use(states[to], a),
    decreases to - from,
{
    if from < to {
        lemma_book_stays_in_use(states, chapters, slots, sizes, aligns, from, to - 1, a);
        assert(states[to - 1].allocated(
            states[to - 1 + 1],
            chapters[to - 1],
            sizes[to - 1],
            aligns[to - 1],
            Some(slots[to - 1]),
        ));
        lemma_book_slot_is_new(
            states[to - 1],
            states[to],
            chapters[to - 1],
            sizes[to - 1],
            aligns[to - 1],
            slots[to - 1],
        );
    }
}

/// The slots of a run of placements in a notebook lie apart, whatever their chapters: of
/// two that hold bytes, one ends where or before the other starts.
pub proof fn lemma_book_slots_apart(
    states: Seq<NotebookView<Pen>>,
    chapters: Seq<int>,
    slots: Seq<usize>,
    sizes: Seq<usize>,
    aligns: Seq<usize>,
    first: int,
    second: int,
)
    requires
        book_placements(states, chapters, slots, sizes, aligns),
        states[0].wf(),
        0 <= first < second < slots.len(),
    ensures
        sizes[first] == 0 || sizes[second] == 0 || slots[first] + sizes[first] <= slots[second]
            || slots[second] + sizes[second] <= slots[first],
{
    lemma_book_stays_in_use(states, chapters, slots, sizes, aligns, 0, first, 0);
    assert(states[first].allocated(
        states[first + 1],
        chapters[first],
        sizes[first],
        aligns[first],
        Some(slots[first]),
    ));
    lemma_book_slot_is_new(
        states[first],
        states[first + 1],
        chapters[first],
        sizes[first],
        aligns[first],
        slots[first],
    );
    if sizes[first] > 0 && sizes[second] > 0 && slots[first] + sizes[first] > slots[second]
        && slots[second] + sizes[second] > slots[first] {
        // The later of the two starts is a byte of both.
        let a: int = if slots[first] <= slots[second] {
            slots[second] as int
        } else {
            slots[first] as int
        };
        assert(book_in_use(states[first + 1], a));
        lemma_book_stays_in_use(states, chapters, slots, sizes, aligns, first + 1, second, a);
        assert(states[second].allocated(
            states[second + 1],
            chapters[second],
            sizes[second],
            aligns[second],
            Some(slots[second]),
        ));
        lemma_book_slot_is_new(
            states[second],
            states[second + 1],
            chapters[second],
            sizes[second],
            aligns[second],
            slots[second],
        );
        assert(!book_in_use(states[second], a));
    }
}

} // verus!
