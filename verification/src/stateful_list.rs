use vstd::prelude::*;

verus! {

/// Where the cursor stands after one forward step over `n` items:
/// wraps to the front past the last item, lands on the front from an
/// absent selection, and stays put when there is nothing to select.
pub open spec fn step_next(sel: Option<int>, n: int) -> Option<int> {
    if n <= 0 {
        sel
    } else {
        match sel {
            Option::None => Option::Some(0int),
            Option::Some(i) => if i + 1 < n {
                Option::Some(i + 1)
            } else {
                Option::Some(0int)
            },
        }
    }
}

/// Where the cursor stands after one backward step over `n` items:
/// wraps to the back from the front, lands on the front from an absent
/// selection, and stays put when there is nothing to select.
pub open spec fn step_previous(sel: Option<int>, n: int) -> Option<int> {
    if n <= 0 {
        sel
    } else {
        match sel {
            Option::None => Option::Some(0int),
            Option::Some(i) => if i == 0 {
                Option::Some(n - 1)
            } else {
                Option::Some(i - 1)
            },
        }
    }
}

/// The cursor after `k` forward steps.
pub open spec fn iter_next(k: nat, sel: Option<int>, n: int) -> Option<int>
    decreases k,
{
    if k == 0 {
        sel
    } else {
        step_next(iter_next((k - 1) as nat, sel, n), n)
    }
}

/// The cursor after `k` backward steps.
pub open spec fn iter_previous(k: nat, sel: Option<int>, n: int) -> Option<int>
    decreases k,
{
    if k == 0 {
        sel
    } else {
        step_previous(iter_previous((k - 1) as nat, sel, n), n)
    }
}

/// The cursor after an arbitrary mixed run of steps: `true` moves
/// forward, `false` moves backward.
pub open spec fn apply_moves(sel: Option<int>, n: int, moves: Seq<bool>) -> Option<int>
    decreases moves.len(),
{
    if moves.len() == 0 {
        sel
    } else {
        let stepped = if moves[0] {
            step_next(sel, n)
        } else {
            step_previous(sel, n)
        };
        apply_moves(stepped, n, moves.drop_first())
    }
}

proof fn lemma_iter_next_adds(k: nat, i: int, n: int)
    requires
        0 <= i < n,
        k <= n,
    ensures
        iter_next(k, Option::Some(i), n) == Option::Some(
            if i + k < n { i + k } else { i + k - n },
        ),
    decreases k,
{
    if k > 0 {
        lemma_iter_next_adds((k - 1) as nat, i, n);
    }
}

proof fn lemma_iter_previous_subtracts(k: nat, i: int, n: int)
    requires
        0 <= i < n,
        k <= n,
    ensures
        iter_previous(k, Option::Some(i), n) == Option::Some(
            if i - k >= 0 { i - k } else { i - k + n },
        ),
    decreases k,
{
    if k > 0 {
        lemma_iter_previous_subtracts((k - 1) as nat, i, n);
    }
}

/// Wraparound: over a list of `n >= 1` items, `n` forward steps from any
/// valid cursor return it to where it started, and so do `n` backward
/// steps.
pub proof fn lemma_wraparound(i: int, n: int)
    requires
        0 <= i < n,
    ensures
        iter_next(n as nat, Option::Some(i), n) == Option::Some(i),
        iter_previous(n as nat, Option::Some(i), n) == Option::Some(i),
{
    lemma_iter_next_adds(n as nat, i, n);
    lemma_iter_previous_subtracts(n as nat, i, n);
}

/// Selection bounds: over a non-empty list, any run of forward and
/// backward steps from a valid (or absent) cursor ends on a valid index;
/// it ends absent only when nothing moved and nothing was selected.
pub proof fn lemma_selection_bounds(sel: Option<int>, n: int, moves: Seq<bool>)
    requires
        n > 0,
        sel matches Option::Some(i) ==> 0 <= i < n,
    ensures
        match apply_moves(sel, n, moves) {
            Option::Some(j) => 0 <= j < n,
            Option::None => moves.len() == 0 && sel is None,
        },
    decreases moves.len(),
{
    if moves.len() > 0 {
        let stepped = if moves[0] {
            step_next(sel, n)
        } else {
            step_previous(sel, n)
        };
        lemma_selection_bounds(stepped, n, moves.drop_first());
    }
}

/// An ordered sequence of items and one movable cursor over it, with
/// circular navigation. The cursor never leaves the sequence's bounds,
/// and an empty list never has a selection.
pub struct StatefulList<T> {
    pub items: Vec<T>,
    pub selected: Option<usize>,
}

impl<T> StatefulList<T> {
    /// The cursor position as a mathematical value.
    pub open spec fn sel(&self) -> Option<int> {
        match self.selected {
            Option::None => Option::None,
            Option::Some(i) => Option::Some(i as int),
        }
    }

    /// The list's invariant: a selection is a valid index, and an empty
    /// list has none.
    pub open spec fn wf(&self) -> bool {
        &&& match self.sel() {
            Option::Some(i) => 0 <= i < self.items@.len(),
            Option::None => true,
        }
        &&& self.items@.len() == 0 ==> self.sel() is None
    }

    /// Build a list over `items`; the cursor starts on the first item
    /// when there is one, and is absent otherwise.
    pub fn with_items(items: Vec<T>) -> (l: Self)
        ensures
            l.items == items,
            l.wf(),
            items@.len() > 0 ==> l.sel() == Option::Some(0int),
            items@.len() == 0 ==> l.sel() is None,
    {
        let selected = if items.len() > 0 {
            Option::Some(0usize)
        } else {
            Option::None
        };
        StatefulList { items, selected }
    }

    /// The current cursor position, if any.
    pub fn selected(&self) -> (r: Option<usize>)
        ensures
            match r {
                Option::Some(i) => self.sel() == Option::Some(i as int),
                Option::None => self.sel() is None,
            },
    {
        self.selected
    }

    /// Move the cursor one item forward, wrapping to the front.
    pub fn next(&mut self)
        requires
            old(self).wf(),
        ensures
            final(self).items == old(self).items,
            final(self).sel() == step_next(old(self).sel(), old(self).items@.len() as int),
            final(self).wf(),
    {
        let n = self.items.len();
        if n > 0 {
            self.selected = match self.selected {
                Option::Some(i) => if i + 1 < n {
                    Option::Some(i + 1)
                } else {
                    Option::Some(0usize)
                },
                Option::None => Option::Some(0usize),
            };
        }
    }

    /// Move the cursor one item backward, wrapping to the back.
    pub fn previous(&mut self)
        requires
            old(self).wf(),
        ensures
            final(self).items == old(self).items,
            final(self).sel() == step_previous(old(self).sel(), old(self).items@.len() as int),
            final(self).wf(),
    {
        let n = self.items.len();
        if n > 0 {
            self.selected = match self.selected {
                Option::Some(i) => if i == 0 {
                    Option::Some(n - 1)
                } else {
                    Option::Some(i - 1)
                },
                Option::None => Option::Some(0usize),
            };
        }
    }

    /// Clear the selection.
    pub fn unselect(&mut self)
        ensures
            final(self).items == old(self).items,
            final(self).sel() is None,
            final(self).wf(),
    {
        self.selected = Option::None;
    }
}

} // verus!
