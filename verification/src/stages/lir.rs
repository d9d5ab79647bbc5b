use vstd::prelude::*;

use crate::shared::definitions::{BinaryOperator, BlockId, CellId, FuncId};
use crate::shared::tables::ChunkLayout;

verus! {

/// The lowest intermediate form: blocks of loads and stores on stack chunks.
#[derive(Debug)]
pub struct LIRProgram {
    pub functions: Vec<(FuncId, LIRFunction)>,
    pub entry: FuncId,
}

#[derive(Debug)]
pub struct LIRFunction {
    pub blocks: Vec<(BlockId, LIRBlock)>,
    pub entry: BlockId,
    pub chunks: StackFrame,
    pub args: Vec<CellId>,
}

#[derive(Debug)]
pub struct LIRBlock {
    pub statements: Vec<LIRStatement>,
    pub terminator: LIRTerminator,
}

#[derive(Debug)]
pub enum LIRStatement {
    Store { dest: LIRPlace, value: LIRValue },
    BinOp { dest: LIRPlace, op: BinaryOperator, left: LIRValue, right: LIRValue },
    Call { dest: LIRPlace, func: FuncId, args: Vec<LIRPlace> },
    Print(LIRValue),
}

/// Mathematical model of a `LIRStatement`.
pub enum LIRStmtV {
    Store { dest: LIRPlace, value: LIRValue },
    BinOp { dest: LIRPlace, op: BinaryOperator, left: LIRValue, right: LIRValue },
    Call { dest: LIRPlace, func: FuncId, args: Seq<LIRPlace> },
    Print(LIRValue),
}

impl View for LIRStatement {
    type V = LIRStmtV;

    open spec fn view(&self) -> LIRStmtV {
        match *self {
            LIRStatement::Store { dest, value } => LIRStmtV::Store { dest, value },
            LIRStatement::BinOp { dest, op, left, right } => LIRStmtV::BinOp { dest, op, left, right },
            LIRStatement::Call { dest, func, args } => LIRStmtV::Call { dest, func, args: args@ },
            LIRStatement::Print(v) => LIRStmtV::Print(v),
        }
    }
}

/// The models of a list of statements.
pub open spec fn stmts_view(s: Seq<LIRStatement>) -> Seq<LIRStmtV> {
    s.map_values(|x: LIRStatement| x@)
}

#[derive(Debug, Clone, Copy, PartialEq, Eq, Structural)]
pub enum LIRTerminator {
    Goto { dest: BlockId },
    Branch { condition: LIRValue, then_block: BlockId, else_block: BlockId },
    Return(Option<LIRValue>),
}

#[derive(Debug, Clone, Copy, PartialEq, Eq, Structural)]
pub enum LIRValue {
    Place(LIRPlace),
    IntLiteral(i32),
    BoolTrue,
    BoolFalse,
    Reference(LIRPlace),
}

/// A memory location: an offset into a stack chunk, or into the memory a pointer chunk points to.
#[derive(Debug, Clone, Copy, PartialEq, Eq, Structural)]
pub enum LIRPlace {
    Local { base: CellId, offset: usize },
    Deref { pointer: CellId, offset: usize },
}

impl LIRPlace {
    pub open spec fn offset_of(self) -> usize {
        match self {
            LIRPlace::Local { offset, .. } => offset,
            LIRPlace::Deref { offset, .. } => offset,
        }
    }

    /// The same place with its offset set to `offset`.
    pub open spec fn with_offset(self, offset: usize) -> LIRPlace {
        match self {
            LIRPlace::Local { base, .. } => LIRPlace::Local { base, offset },
            LIRPlace::Deref { pointer, .. } => LIRPlace::Deref { pointer, offset },
        }
    }

    /// The place `increment` bytes further into the same chunk.
    pub fn increment_offset(&self, increment: usize) -> (r: Self)
        requires
            self.offset_of() + increment <= usize::MAX,
        ensures
            r == self.with_offset((self.offset_of() + increment) as usize),
    {
        match self {
            LIRPlace::Local { base, offset } => LIRPlace::Local { base: *base, offset: *offset + increment },
            LIRPlace::Deref { pointer, offset } => LIRPlace::Deref { pointer: *pointer, offset: *offset + increment },
        }
    }
}

/// One chunk of a stack frame.
#[derive(Debug, Clone, Copy)]
pub struct Cell {
    id: CellId,
    size: usize,
}

/// The chunks of a function's stack frame, laid out one after the other in this order.
#[derive(Debug)]
pub struct StackFrame {
    cells: Vec<Cell>,
}

/// The sum of the sizes of the first `k` chunks.
pub open spec fn prefix_size(cells: Seq<(CellId, nat)>, k: int) -> nat
    decreases k,
{
    if k <= 0 {
        0
    } else {
        prefix_size(cells, k - 1) + cells[k - 1].1
    }
}

/// The index of the first chunk with identifier `id`, if any.
pub open spec fn first_index(cells: Seq<(CellId, nat)>, id: CellId) -> Option<int> {
    if exists|i: int| 0 <= i < cells.len() && cells[i].0 == id {
        let i = choose|i: int|
            0 <= i < cells.len() && cells[i].0 == id && forall|j: int| 0 <= j < i ==> cells[j].0 != id;
        Some(i)
    } else {
        None
    }
}

/// The frame offset of chunk `id`: 8 bytes of saved state, then the chunks before it.
pub open spec fn frame_offset(cells: Seq<(CellId, nat)>, id: CellId) -> Option<nat> {
    match first_index(cells, id) {
        Some(i) => Some(8 + prefix_size(cells, i)),
        None => None,
    }
}

pub proof fn lemma_prefix_size_mono(cells: Seq<(CellId, nat)>, i: int, j: int)
    requires
        0 <= i <= j <= cells.len(),
    ensures
        prefix_size(cells, i) <= prefix_size(cells, j),
    decreases j - i,
{
    if i < j {
        lemma_prefix_size_mono(cells, i, j - 1);
    }
}

pub proof fn lemma_first_index_some(cells: Seq<(CellId, nat)>, id: CellId)
    requires
        exists|i: int| 0 <= i < cells.len() && cells[i].0 == id,
    ensures
        first_index(cells, id) is Some,
        0 <= first_index(cells, id)->Some_0 < cells.len(),
        cells[first_index(cells, id)->Some_0].0 == id,
{
    let w = choose|i: int| 0 <= i < cells.len() && cells[i].0 == id;
    let k = lemma_least_witness(cells, id, w);
    assert(0 <= k < cells.len() && cells[k].0 == id && forall|j: int| 0 <= j < k ==> cells[j].0 != id);
}

proof fn lemma_least_witness(cells: Seq<(CellId, nat)>, id: CellId, w: int) -> (k: int)
    requires
        0 <= w < cells.len(),
        cells[w].0 == id,
    ensures
        0 <= k <= w,
        cells[k].0 == id,
        forall|j: int| 0 <= j < k ==> cells[j].0 != id,
    decreases w,
{
    if exists|j: int| 0 <= j < w && cells[j].0 == id {
        let j = choose|j: int| 0 <= j < w && cells[j].0 == id;
        lemma_least_witness(cells, id, j)
    } else {
        w
    }
}

pub proof fn lemma_first_index(cells: Seq<(CellId, nat)>, k: int)
    requires
        0 <= k < cells.len(),
        forall|j: int| 0 <= j < k ==> cells[j].0 != cells[k].0,
    ensures
        first_index(cells, cells[k].0) == Some(k),
{
    let id = cells[k].0;
    assert(0 <= k < cells.len() && cells[k].0 == id && forall|j: int| 0 <= j < k ==> cells[j].0 != id);
    let i = choose|i: int|
        0 <= i < cells.len() && cells[i].0 == id && forall|j: int| 0 <= j < i ==> cells[j].0 != id;
    if i < k {
        assert(cells[i].0 != id);
    }
    if k < i {
        assert(cells[k].0 != id);
    }
}

impl View for StackFrame {
    /// The chunks with their sizes, in frame order.
    type V = Seq<(CellId, nat)>;

    closed spec fn view(&self) -> Seq<(CellId, nat)> {
        self.cells@.map_values(|c: Cell| (c.id, c.size as nat))
    }
}

pub open spec fn layouts_frame(layouts: Seq<(CellId, ChunkLayout)>) -> Seq<(CellId, nat)> {
    layouts.map_values(|p: (CellId, ChunkLayout)| (p.0, p.1.size as nat))
}

impl StackFrame {
    /// A frame with one chunk per layout, in the given order.
    pub fn from_layouts(layouts: &Vec<(CellId, ChunkLayout)>) -> (r: Self)
        ensures
            r@ == layouts_frame(layouts@),
    {
        let mut cells: Vec<Cell> = Vec::new();
        let mut i: usize = 0;
        while i < layouts.len()
            invariant
                i <= layouts.len(),
                cells.len() == i,
                forall|j: int| 0 <= j < i ==> (#[trigger] cells@[j]).id == layouts@[j].0 && cells@[j].size == layouts@[j].1.size,
            decreases layouts.len() - i,
        {
            cells.push(Cell { id: layouts[i].0, size: layouts[i].1.size });
            i = i + 1;
        }
        let r = StackFrame { cells };
        assert(r@ =~= layouts_frame(layouts@));
        r
    }

    /// The total size of the chunks.
    pub fn size(&self) -> (r: usize)
        requires
            prefix_size(self@, self@.len() as int) <= usize::MAX,
        ensures
            r == prefix_size(self@, self@.len() as int),
    {
        let mut total: usize = 0;
        let mut i: usize = 0;
        while i < self.cells.len()
            invariant
                i <= self.cells.len(),
                self@.len() == self.cells@.len(),
                total == prefix_size(self@, i as int),
                prefix_size(self@, self@.len() as int) <= usize::MAX,
            decreases self.cells.len() - i,
        {
            proof {
                lemma_prefix_size_mono(self@, i + 1, self@.len() as int);
            }
            total = total + self.cells[i].size;
            i = i + 1;
        }
        total
    }

    /// Whether the offsets of the frame fit in a machine word: 8 bytes of saved state, then all
    /// the chunks.
    pub fn fits(&self) -> (r: bool)
        ensures
            r == (8 + prefix_size(self@, self@.len() as int) <= usize::MAX),
    {
        let mut total: usize = 8;
        let mut i: usize = 0;
        while i < self.cells.len()
            invariant
                i <= self.cells.len(),
                self@.len() == self.cells@.len(),
                total == 8 + prefix_size(self@, i as int),
            decreases self.cells.len() - i,
        {
            assert(self@[i as int].1 == self.cells@[i as int].size);
            if self.cells[i].size > usize::MAX - total {
                proof {
                    lemma_prefix_size_mono(self@, i + 1, self@.len() as int);
                }
                return false;
            }
            total = total + self.cells[i].size;
            i = i + 1;
        }
        true
    }

    /// The offset of chunk `chunk` in the frame, or `None` where the frame has no such chunk.
    pub fn get_offset(&self, chunk: &CellId) -> (r: Option<usize>)
        requires
            8 + prefix_size(self@, self@.len() as int) <= usize::MAX,
        ensures
            match r {
                Some(o) => frame_offset(self@, *chunk) == Some(o as nat),
                None => frame_offset(self@, *chunk) is None,
            },
    {
        let mut offset_acc: usize = 8;
        let mut i: usize = 0;
        while i < self.cells.len()
            invariant
                i <= self.cells.len(),
                self@.len() == self.cells@.len(),
                offset_acc == 8 + prefix_size(self@, i as int),
                forall|j: int| 0 <= j < i ==> self@[j].0 != *chunk,
                8 + prefix_size(self@, self@.len() as int) <= usize::MAX,
            decreases self.cells.len() - i,
        {
            if self.cells[i].id == *chunk {
                proof {
                    lemma_first_index(self@, i as int);
                }
                return Some(offset_acc);
            }
            proof {
                lemma_prefix_size_mono(self@, i + 1, self@.len() as int);
            }
            offset_acc = offset_acc + self.cells[i].size;
            i = i + 1;
        }
        None
    }
}

/// Two distinct chunks of a frame never overlap: the one laid out first ends at or before the
/// offset where the other begins, and every chunk ends within the frame.
pub proof fn law_frame_chunks_disjoint(frame: StackFrame, a: CellId, b: CellId)
    requires
        a != b,
        frame_offset(frame@, a) is Some,
        frame_offset(frame@, b) is Some,
    ensures
        ({
            let cells = frame@;
            let ia = first_index(cells, a)->Some_0;
            let ib = first_index(cells, b)->Some_0;
            let oa = frame_offset(cells, a)->Some_0;
            let ob = frame_offset(cells, b)->Some_0;
            &&& oa + cells[ia].1 <= 8 + prefix_size(cells, cells.len() as int)
            &&& (ia < ib ==> oa + cells[ia].1 <= ob)
            &&& (ib < ia ==> ob + cells[ib].1 <= oa)
        }),
{
    let cells = frame@;
    lemma_first_index_some(cells, a);
    lemma_first_index_some(cells, b);
    let ia = first_index(cells, a)->Some_0;
    let ib = first_index(cells, b)->Some_0;
    lemma_prefix_size_mono(cells, ia + 1, cells.len() as int);
    if ia < ib {
        lemma_prefix_size_mono(cells, ia + 1, ib);
    }
    if ib < ia {
        lemma_prefix_size_mono(cells, ib + 1, ia);
    }
}

/// A frame built from layouts has an offset exactly for the cells that have a layout; the chunk
/// found for a cell is its first layout, and has that layout's size.
pub proof fn law_layouts_frame_offsets(layouts: Seq<(CellId, ChunkLayout)>, c: CellId)
    ensures
        frame_offset(layouts_frame(layouts), c) is Some <==> exists|i: int| 0 <= i < layouts.len() && layouts[i].0 == c,
        frame_offset(layouts_frame(layouts), c) is Some ==> {
            let i = first_index(layouts_frame(layouts), c)->Some_0;
            &&& 0 <= i < layouts.len()
            &&& layouts[i].0 == c
            &&& layouts_frame(layouts)[i].1 == layouts[i].1.size
            &&& forall|j: int| 0 <= j < i ==> layouts[j].0 != c
        },
{
    let cells = layouts_frame(layouts);
    assert(cells.len() == layouts.len());
    if exists|i: int| 0 <= i < layouts.len() && layouts[i].0 == c {
        let w = choose|i: int| 0 <= i < layouts.len() && layouts[i].0 == c;
        assert(cells[w].0 == c);
        let k = lemma_least_witness(cells, c, w);
        assert(0 <= k < cells.len() && cells[k].0 == c && forall|j: int| 0 <= j < k ==> cells[j].0 != c);
        let i = first_index(cells, c)->Some_0;
        assert(0 <= i < cells.len() && cells[i].0 == c && forall|j: int| 0 <= j < i ==> cells[j].0 != c);
        assert(layouts[i].0 == c);
        assert forall|j: int| 0 <= j < i implies layouts[j].0 != c by {
            assert(cells[j].0 == layouts[j].0);
        }
    } else {
        assert forall|i: int| 0 <= i < cells.len() implies cells[i].0 != c by {
            assert(cells[i].0 == layouts[i].0);
        }
    }
}

} // verus!
