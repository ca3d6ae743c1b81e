//! Heap emulator: stores term trees as flat heap cells, in post order — the
//! cells of a compound term's arguments precede the cell of the compound
//! itself, which refers to them by index.
//!
//! The layout is given by the specification functions [`term_cells`] and
//! [`args_cells`]/[`args_indices`]; [`WamEmulator::push_term`] is proved to
//! append exactly those cells.

use vstd::prelude::*;

verus! {

// ---------------------------------------------------------------------------
// Terms and heap cells
// ---------------------------------------------------------------------------

/// A term in the form the heap emulator stores: a constant, a compound of a
/// name and argument terms, or an anonymous variable.
pub enum Term {
    Atom(String),
    Compound(String, Vec<Term>),
    Variable,
}

/// One cell of the heap. A `Reference` cell holding its own index is an
/// unbound variable; a `Structure` cell names its arguments by their cell
/// indices.
#[derive(Debug, PartialEq)]
pub enum HeapCell {
    Reference(usize),
    Structure(String, Vec<usize>),
    Constant(String),
}

/// The emulator: a growing heap of cells.
pub struct WamEmulator {
    heap: Vec<HeapCell>,
}

/// The mathematical value of a [`Term`].
pub enum TermModel {
    Atom(Seq<char>),
    Compound(Seq<char>, Seq<TermModel>),
    Variable,
}

/// The mathematical value of a [`HeapCell`], with unbounded indices.
pub enum CellModel {
    Reference(int),
    Structure(Seq<char>, Seq<int>),
    Constant(Seq<char>),
}

pub open spec fn term_view(t: Term) -> TermModel
    decreases t,
{
    match t {
        Term::Atom(s) => TermModel::Atom(s@),
        Term::Compound(name, args) => TermModel::Compound(
            name@,
            Seq::new(
                args@.len(),
                |i: int|
                    if 0 <= i < args@.len() {
                        term_view(args@[i])
                    } else {
                        TermModel::Variable
                    },
            ),
        ),
        Term::Variable => TermModel::Variable,
    }
}

impl View for Term {
    type V = TermModel;

    open spec fn view(&self) -> TermModel {
        term_view(*self)
    }
}

/// The views of a sequence of terms.
pub open spec fn terms_view(s: Seq<Term>) -> Seq<TermModel> {
    Seq::new(s.len(), |i: int| term_view(s[i]))
}

/// The view of a compound term is the compound of the views.
pub broadcast proof fn lemma_term_view_compound(name: String, args: Vec<Term>)
    ensures
        #[trigger] term_view(Term::Compound(name, args)) == TermModel::Compound(
            name@,
            terms_view(args@),
        ),
{
    let t = Term::Compound(name, args);
    assert(term_view(t)->Compound_1 =~= terms_view(args@));
}

impl View for HeapCell {
    type V = CellModel;

    open spec fn view(&self) -> CellModel {
        match self {
            HeapCell::Reference(r) => CellModel::Reference(*r as int),
            HeapCell::Structure(name, idxs) => CellModel::Structure(
                name@,
                Seq::new(idxs@.len(), |i: int| idxs@[i] as int),
            ),
            HeapCell::Constant(name) => CellModel::Constant(name@),
        }
    }
}

/// The views of a sequence of heap cells.
pub open spec fn heap_view(s: Seq<HeapCell>) -> Seq<CellModel> {
    Seq::new(s.len(), |i: int| s[i]@)
}

// ---------------------------------------------------------------------------
// The heap layout of a term
// ---------------------------------------------------------------------------

/// The cells that storing `t` appends to a heap of length `base`: one
/// `Constant` cell for an atom, one self-referential `Reference` cell for a
/// variable, and for a compound the cells of its arguments in order followed
/// by one `Structure` cell naming their indices.
pub open spec fn term_cells(t: TermModel, base: int) -> Seq<CellModel>
    decreases t, 0int,
{
    match t {
        TermModel::Atom(name) => seq![CellModel::Constant(name)],
        TermModel::Variable => seq![CellModel::Reference(base)],
        TermModel::Compound(name, args) => args_cells(args, 0, base) + seq![
            CellModel::Structure(name, args_indices(args, 0, base)),
        ],
    }
}

/// The cells that storing the arguments `args[i..]` appends to a heap of
/// length `base`.
pub open spec fn args_cells(args: Seq<TermModel>, i: int, base: int) -> Seq<CellModel>
    decreases args, args.len() - i,
{
    if 0 <= i < args.len() {
        term_cells(args[i], base) + args_cells(
            args,
            i + 1,
            base + term_cells(args[i], base).len(),
        )
    } else {
        Seq::empty()
    }
}

/// The heap indices at which the arguments `args[i..]` come to sit: each
/// argument's index is the last cell of its own layout.
pub open spec fn args_indices(args: Seq<TermModel>, i: int, base: int) -> Seq<int>
    decreases args, args.len() - i,
{
    if 0 <= i < args.len() {
        seq![base + term_cells(args[i], base).len() - 1] + args_indices(
            args,
            i + 1,
            base + term_cells(args[i], base).len(),
        )
    } else {
        Seq::empty()
    }
}

proof fn lemma_term_cells_nonempty(t: TermModel, base: int)
    ensures
        term_cells(t, base).len() >= 1,
{
}

// ---------------------------------------------------------------------------
// The emulator
// ---------------------------------------------------------------------------

impl WamEmulator {
    /// The heap contents, as cell values.
    pub closed spec fn heap_model(&self) -> Seq<CellModel> {
        heap_view(self.heap@)
    }

    /// A fresh emulator with an empty heap.
    pub fn new() -> (r: Self)
        ensures
            r.heap_model() == Seq::<CellModel>::empty(),
    {
        let r = Self { heap: Vec::new() };
        proof {
            assert(r.heap_model() =~= Seq::<CellModel>::empty());
        }
        r
    }

    /// Stores `term` on the heap and returns the index of its topmost cell:
    /// exactly the cells of [`term_cells`] are appended, and the returned
    /// index is the last of them.
    #[verifier::loop_isolation(false)]
    pub fn push_term(&mut self, term: &Term) -> (idx: usize)
        ensures
            final(self).heap_model() == old(self).heap_model() + term_cells(
                term@,
                old(self).heap_model().len() as int,
            ),
            final(self).heap_model().len() == old(self).heap_model().len() + term_cells(
                term@,
                old(self).heap_model().len() as int,
            ).len(),
            idx + 1 == final(self).heap_model().len(),
        decreases *term,
    {
        let ghost base = self.heap@.len() as int;
        match term {
            Term::Atom(name) => {
                let index = self.heap.len();
                self.heap.push(HeapCell::Constant(name.clone()));
                proof {
                    assert(heap_view(self.heap@) =~= heap_view(old(self).heap@) + term_cells(
                        term@,
                        base,
                    ));
                }
                index
            },
            Term::Compound(name, terms) => {
                let ghost argsv = term_view(*term)->Compound_1;
                proof {
                    assert(argsv =~= terms_view(terms@));
                }
                let mut indexes: Vec<usize> = Vec::new();
                let mut j: usize = 0;
                proof {
                    assert(heap_view(self.heap@).skip(base) =~= Seq::<CellModel>::empty());
                    assert(Seq::new(0nat, |i: int| indexes@[i] as int) =~= Seq::<int>::empty());
                }
                while j < terms.len()
                    invariant
                        j <= terms@.len(),
                        argsv.len() == terms@.len(),
                        forall|k: int| 0 <= k < terms@.len() ==> argsv[k] == term_view(
                            #[trigger] terms@[k],
                        ),
                        base == old(self).heap@.len() as int,
                        self.heap@.len() >= base,
                        heap_view(self.heap@).take(base) == heap_view(old(self).heap@),
                        args_cells(argsv, 0, base) == heap_view(self.heap@).skip(base)
                            + args_cells(argsv, j as int, self.heap@.len() as int),
                        args_indices(argsv, 0, base) == Seq::new(
                            indexes@.len(),
                            |i: int| indexes@[i] as int,
                        ) + args_indices(argsv, j as int, self.heap@.len() as int),
                    decreases terms@.len() - j,
                {
                    let ghost heap_before = self.heap@;
                    let ghost b_j = self.heap@.len() as int;
                    let index = self.push_term(&terms[j]);
                    proof {
                        assert(term_view(terms@[j as int]) == argsv[j as int]);
                        let cells_j = term_cells(argsv[j as int], b_j);
                        lemma_term_cells_nonempty(argsv[j as int], b_j);
                        assert(heap_view(self.heap@).take(base) =~= heap_view(
                            heap_before,
                        ).take(base));
                        assert(heap_view(self.heap@).skip(base) =~= heap_view(
                            heap_before,
                        ).skip(base) + cells_j);
                        assert(heap_view(heap_before).skip(base) + (cells_j + args_cells(
                            argsv,
                            j + 1,
                            b_j + cells_j.len(),
                        )) =~= heap_view(self.heap@).skip(base) + args_cells(
                            argsv,
                            j + 1,
                            b_j + cells_j.len(),
                        ));
                    }
                    let ghost idxsold = Seq::new(indexes@.len(), |i: int| indexes@[i] as int);
                    indexes.push(index);
                    proof {
                        let cells_j = term_cells(argsv[j as int], b_j);
                        assert(Seq::new(indexes@.len(), |i: int| indexes@[i] as int)
                            =~= idxsold.push(index as int));
                        assert(idxsold + (seq![b_j + cells_j.len() - 1] + args_indices(
                            argsv,
                            j + 1,
                            b_j + cells_j.len(),
                        )) =~= idxsold.push(index as int) + args_indices(
                            argsv,
                            j + 1,
                            b_j + cells_j.len(),
                        ));
                    }
                    j = j + 1;
                }
                proof {
                    assert(args_cells(argsv, terms@.len() as int, self.heap@.len() as int)
                        == Seq::<CellModel>::empty());
                    assert(heap_view(self.heap@).skip(base) + Seq::<CellModel>::empty()
                        =~= heap_view(self.heap@).skip(base));
                    assert(args_indices(argsv, terms@.len() as int, self.heap@.len() as int)
                        == Seq::<int>::empty());
                    assert(Seq::new(indexes@.len(), |i: int| indexes@[i] as int) + Seq::<
                        int,
                    >::empty() =~= Seq::new(indexes@.len(), |i: int| indexes@[i] as int));
                }
                let index = self.heap.len();
                let cell = HeapCell::Structure(name.clone(), indexes);
                proof {
                    assert(cell@ == CellModel::Structure(name@, args_indices(argsv, 0, base)));
                }
                self.heap.push(cell);
                proof {
                    assert(term_view(*term) == TermModel::Compound(name@, argsv));
                    assert(heap_view(self.heap@) =~= heap_view(old(self).heap@) + (args_cells(
                        argsv,
                        0,
                        base,
                    ) + seq![CellModel::Structure(name@, args_indices(argsv, 0, base))]));
                }
                index
            },
            Term::Variable => {
                let index = self.heap.len();
                self.heap.push(HeapCell::Reference(index));
                proof {
                    assert(heap_view(self.heap@) =~= heap_view(old(self).heap@) + term_cells(
                        term@,
                        base,
                    ));
                }
                index
            },
        }
    }

    /// The cell at `index`, or `None` when the index lies beyond the heap.
    pub fn get_heap_cell(&self, index: usize) -> (r: Option<&HeapCell>)
        ensures
            match r {
                Some(c) => index < self.heap_model().len() && c@ == self.heap_model()[
                    index as int
                ],
                None => index >= self.heap_model().len(),
            },
    {
        if index < self.heap.len() {
            Some(&self.heap[index])
        } else {
            None
        }
    }
}

} // verus!
