use vstd::prelude::*;

verus! {

/// A rectangular block of the floorplan, in integer length units.
#[derive(Clone, Copy, Debug, PartialEq, Eq, Structural)]
pub struct Module {
    pub name: i32,
    pub area: u64,
    pub width: u32,
    pub height: u32,
    pub rotatable: bool,
}

impl Module {
    /// Well-formed modules carry their own area.
    pub open spec fn wf(self) -> bool {
        self.area == self.width * self.height
    }

    /// The sum of both sides: a bound on what this module adds to either
    /// side of any floorplan that holds it.
    pub open spec fn extent(self) -> int {
        self.width + self.height
    }

    pub fn new(name: i32, width: u32, height: u32, rotatable: bool) -> (r: Module)
        ensures
            r.name == name,
            r.width == width,
            r.height == height,
            r.rotatable == rotatable,
            r.area == width * height,
            r.wf(),
    {
        proof {
            vstd::arithmetic::mul::lemma_mul_upper_bound(
                width as int,
                u32::MAX as int,
                height as int,
                u32::MAX as int,
            );
        }
        Module { name, area: width as u64 * height as u64, width, height, rotatable }
    }
}

/// A slicing cut: `*` places the left part beside the right one, `+` places
/// the left part above the right one.
#[derive(Clone, Copy, Debug, PartialEq, Eq, Structural)]
pub enum Cut {
    Vertical,
    Horizontal,
}

impl Cut {
    pub open spec fn flipped(self) -> Cut {
        match self {
            Cut::Vertical => Cut::Horizontal,
            Cut::Horizontal => Cut::Vertical,
        }
    }

    /// The other cut.
    pub fn flip(self) -> (r: Cut)
        ensures
            r == self.flipped(),
    {
        match self {
            Cut::Vertical => Cut::Horizontal,
            Cut::Horizontal => Cut::Vertical,
        }
    }
}

/// One token of a Polish expression.
#[derive(Clone, Copy, Debug, PartialEq, Eq, Structural)]
pub enum Element {
    Operand(Module),
    Operator(Cut),
}

impl Element {
    pub open spec fn is_operator(self) -> bool {
        self is Operator
    }

    pub fn is_cut(&self) -> (r: bool)
        ensures
            r == self.is_operator(),
    {
        match self {
            Element::Operand(_) => false,
            Element::Operator(_) => true,
        }
    }
}

} // verus!

verus! {

/// Why a floorplan could not be set up or evaluated.
#[derive(Clone, Copy, Debug, PartialEq, Eq, Structural)]
pub enum FloorplanError {
    /// Fewer than two modules were given.
    InsufficientModules,
    /// A token sequence that does not evaluate to exactly one slicing tree.
    MalformedExpression,
}

} // verus!
