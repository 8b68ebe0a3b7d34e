//! The parameter profile and the data that the rounds exchange.

use vstd::prelude::*;

verus! {

/// Residue modulo `Q`.
pub type FieldElement = u64;

/// Vector of field elements.
pub type Vector = Vec<FieldElement>;

/// Dense matrix of field elements, one `Vec` per row.
pub type Matrix = Vec<Vec<FieldElement>>;

/// Round index, from 0 to `ELL`.
pub type Round = usize;

/// Every `y` and `v` emitted so far, in emission order.
pub type Transcript = Vec<Vector>;

/// Binary challenge matrix of `R * KAPPA` rows and `KAPPA` columns.
pub type Challenge = Vec<Vec<u8>>;

/// Recursion depth.
pub const ELL: usize = 3;

/// Compression factor.
pub const R: usize = 4;

/// Parameter kappa.
pub const KAPPA: usize = 4;

/// Lattice dimension.
pub const N: usize = 3;

/// Gadget height.
pub const TAU: usize = 1;

/// Gadget width: bits per decomposed element.
pub const ALPHA: usize = 10;

/// Infinity-norm bound of the first round.
pub const BETA: FieldElement = 2;

/// Field modulus.
pub const Q: FieldElement = 563;

/// Why an operation refused its operands.
#[derive(Debug, Clone, Copy, PartialEq, Eq, Structural)]
pub enum ProtocolError {
    /// Operand shapes do not fit each other, or a result would be too large to index.
    DimensionMismatch,
    /// A value to decompose does not fit the gadget width.
    ValueOutOfRange,
}

/// Secret state of a round: the remaining decompositions and the folded secret.
#[derive(Debug, Clone)]
pub struct WitnessData {
    pub s_list: Vec<Vector>,
    pub f_vec: Vector,
}

/// Public state of a round.
#[derive(Debug, Clone)]
pub struct XiData {
    pub a: Matrix,
    pub t_i: Vector,
    pub x_list: Vec<Matrix>,
    pub u_i: Vector,
}

/// One message of the prover.
#[derive(Debug, Clone)]
pub struct ZiData {
    pub y: Vector,
    pub v: Vector,
}

/// Initial witness and initial instance.
#[derive(Debug, Clone)]
pub struct SetupOutput {
    pub w0: WitnessData,
    pub x0: XiData,
}

/// Rows of a nested `Vec` as sequences.
pub open spec fn grid<T>(m: Seq<Vec<T>>) -> Seq<Seq<T>> {
    Seq::new(m.len(), |i: int| m[i]@)
}

/// A list of matrices as sequences.
pub open spec fn grids(xs: Seq<Matrix>) -> Seq<Seq<Seq<u64>>> {
    Seq::new(xs.len(), |i: int| grid(xs[i]@))
}

pub struct WitnessView {
    pub s_list: Seq<Seq<u64>>,
    pub f_vec: Seq<u64>,
}

pub struct XiView {
    pub a: Seq<Seq<u64>>,
    pub t_i: Seq<u64>,
    pub x_list: Seq<Seq<Seq<u64>>>,
    pub u_i: Seq<u64>,
}

pub struct ZiView {
    pub y: Seq<u64>,
    pub v: Seq<u64>,
}

pub struct SetupView {
    pub w0: WitnessView,
    pub x0: XiView,
}

impl View for WitnessData {
    type V = WitnessView;

    open spec fn view(&self) -> WitnessView {
        WitnessView { s_list: grid(self.s_list@), f_vec: self.f_vec@ }
    }
}

impl View for XiData {
    type V = XiView;

    open spec fn view(&self) -> XiView {
        XiView { a: grid(self.a@), t_i: self.t_i@, x_list: grids(self.x_list@), u_i: self.u_i@ }
    }
}

impl View for ZiData {
    type V = ZiView;

    open spec fn view(&self) -> ZiView {
        ZiView { y: self.y@, v: self.v@ }
    }
}

impl View for SetupOutput {
    type V = SetupView;

    open spec fn view(&self) -> SetupView {
        SetupView { w0: self.w0@, x0: self.x0@ }
    }
}

/// A transcript as sequences.
pub open spec fn transcript_view(t: Seq<Vector>) -> Seq<Seq<u64>> {
    grid(t)
}

} // verus!
