use vstd::prelude::*;

verus! {

/// Why a rectangle was refused as a spatial extent.
#[derive(Debug, Clone, Copy, PartialEq, Eq, Structural)]
pub enum BoundsError {
    /// `left` is not strictly less than `right`.
    LeftNotLessThanRight,
    /// `bottom` is not strictly less than `top`.
    BottomNotLessThanTop,
}

impl BoundsError {
    /// A human-readable description of the error.
    pub fn message(&self) -> (r: &'static str)
        ensures
            *self == BoundsError::LeftNotLessThanRight ==> r@ == "left must be less than right"@,
            *self == BoundsError::BottomNotLessThanTop ==> r@ == "bottom must be less than top"@,
    {
        match self {
            BoundsError::LeftNotLessThanRight => "left must be less than right",
            BoundsError::BottomNotLessThanTop => "bottom must be less than top",
        }
    }
}

/// A rectangular extent in integer world units, non-empty along both axes.
#[derive(Debug, Clone, Copy, PartialEq, Eq, Structural)]
#[verifier::type_invariant]
pub struct Bounds {
    left: i32,
    bottom: i32,
    right: i32,
    top: i32,
}

impl Bounds {
    #[verifier::type_invariant]
    pub closed spec fn inv(&self) -> bool {
        self.left < self.right && self.bottom < self.top
    }

    /// The invariant that every `Bounds` value carries is `wf`.
    pub proof fn lemma_inv_is_wf(b: &Bounds)
        requires
            b.inv(),
        ensures
            b.wf(),
    {
    }

    pub closed spec fn spec_left(&self) -> i32 {
        self.left
    }

    pub closed spec fn spec_bottom(&self) -> i32 {
        self.bottom
    }

    pub closed spec fn spec_right(&self) -> i32 {
        self.right
    }

    pub closed spec fn spec_top(&self) -> i32 {
        self.top
    }

    /// Every `Bounds` that can be built is well formed.
    pub open spec fn wf(&self) -> bool {
        self.spec_left() < self.spec_right() && self.spec_bottom() < self.spec_top()
    }

    /// Width of the extent in world units.
    pub open spec fn spec_world_width(&self) -> int {
        self.spec_right() - self.spec_left()
    }

    /// Height of the extent in world units.
    pub open spec fn spec_world_height(&self) -> int {
        self.spec_top() - self.spec_bottom()
    }

    /// Whether `new(left, bottom, right, top)` accepts its arguments.
    pub open spec fn accepts(left: i32, bottom: i32, right: i32, top: i32) -> bool {
        left < right && bottom < top
    }

    /// Creates an extent. Fails when `left >= right`, then when `bottom >= top`.
    pub fn new(left: i32, bottom: i32, right: i32, top: i32) -> (r: Result<Bounds, BoundsError>)
        ensures
            left >= right ==> r == Err::<Bounds, BoundsError>(BoundsError::LeftNotLessThanRight),
            left < right && bottom >= top ==> r == Err::<Bounds, BoundsError>(
                BoundsError::BottomNotLessThanTop,
            ),
            r is Ok <==> Bounds::accepts(left, bottom, right, top),
            r matches Ok(b) ==> {
                &&& b.wf()
                &&& b.spec_left() == left
                &&& b.spec_bottom() == bottom
                &&& b.spec_right() == right
                &&& b.spec_top() == top
            },
    {
        if left >= right {
            return Err(BoundsError::LeftNotLessThanRight);
        }
        if bottom >= top {
            return Err(BoundsError::BottomNotLessThanTop);
        }
        Ok(Bounds { left, bottom, right, top })
    }

    /// Creates an extent from `(left, bottom, right, top)`.
    pub fn try_from_tuple(value: (i32, i32, i32, i32)) -> (r: Result<Bounds, BoundsError>)
        ensures
            r == Bounds::spec_new(value.0, value.1, value.2, value.3),
            value.0 >= value.2 ==> r == Err::<Bounds, BoundsError>(BoundsError::LeftNotLessThanRight),
            value.0 < value.2 && value.1 >= value.3 ==> r == Err::<Bounds, BoundsError>(
                BoundsError::BottomNotLessThanTop,
            ),
            r is Ok <==> Bounds::accepts(value.0, value.1, value.2, value.3),
            r matches Ok(b) ==> {
                &&& b.wf()
                &&& b.spec_left() == value.0
                &&& b.spec_bottom() == value.1
                &&& b.spec_right() == value.2
                &&& b.spec_top() == value.3
            },
    {
        Bounds::new(value.0, value.1, value.2, value.3)
    }

    /// Creates an extent from `[left, bottom, right, top]`.
    pub fn try_from_array(value: [i32; 4]) -> (r: Result<Bounds, BoundsError>)
        ensures
            r == Bounds::spec_new(value@[0], value@[1], value@[2], value@[3]),
            value@[0] >= value@[2] ==> r == Err::<Bounds, BoundsError>(BoundsError::LeftNotLessThanRight),
            value@[0] < value@[2] && value@[1] >= value@[3] ==> r == Err::<Bounds, BoundsError>(
                BoundsError::BottomNotLessThanTop,
            ),
            r is Ok <==> Bounds::accepts(value@[0], value@[1], value@[2], value@[3]),
            r matches Ok(b) ==> {
                &&& b.wf()
                &&& b.spec_left() == value@[0]
                &&& b.spec_bottom() == value@[1]
                &&& b.spec_right() == value@[2]
                &&& b.spec_top() == value@[3]
            },
    {
        Bounds::new(value[0], value[1], value[2], value[3])
    }

    /// What `new` returns on the given arguments.
    pub closed spec fn spec_new(left: i32, bottom: i32, right: i32, top: i32) -> Result<
        Bounds,
        BoundsError,
    > {
        if left >= right {
            Err(BoundsError::LeftNotLessThanRight)
        } else if bottom >= top {
            Err(BoundsError::BottomNotLessThanTop)
        } else {
            Ok(Bounds { left, bottom, right, top })
        }
    }

    /// Two extents with the same four edges are the same extent.
    pub proof fn lemma_same_edges(a: Bounds, b: Bounds)
        requires
            a.spec_left() == b.spec_left(),
            a.spec_bottom() == b.spec_bottom(),
            a.spec_right() == b.spec_right(),
            a.spec_top() == b.spec_top(),
        ensures
            a == b,
    {
    }

    /// Rebuilding a valid extent from its four edges, as `new`,
    /// `try_from_tuple` and `try_from_array` do, gives it again.
    pub proof fn lemma_edges_round_trip(b: Bounds)
        requires
            b.wf(),
        ensures
            Bounds::spec_new(b.spec_left(), b.spec_bottom(), b.spec_right(), b.spec_top()) == Ok::<
                Bounds,
                BoundsError,
            >(b),
    {
    }

    /// `(left, bottom, right, top)`.
    pub fn to_tuple(&self) -> (r: (i32, i32, i32, i32))
        ensures
            self.wf(),
            r == (self.spec_left(), self.spec_bottom(), self.spec_right(), self.spec_top()),
    {
        proof {
            use_type_invariant(self);
        }
        (self.left, self.bottom, self.right, self.top)
    }

    /// `[left, bottom, right, top]`.
    pub fn to_array(&self) -> (r: [i32; 4])
        ensures
            self.wf(),
            r@ == seq![self.spec_left(), self.spec_bottom(), self.spec_right(), self.spec_top()],
    {
        proof {
            use_type_invariant(self);
        }
        let r = [self.left, self.bottom, self.right, self.top];
        assert(r@ =~= seq![self.left, self.bottom, self.right, self.top]);
        r
    }

    /// The left edge.
    #[verifier::when_used_as_spec(spec_left)]
    pub fn left(&self) -> (r: i32)
        ensures
            r == self.spec_left(),
    {
        self.left
    }

    /// The bottom edge.
    #[verifier::when_used_as_spec(spec_bottom)]
    pub fn bottom(&self) -> (r: i32)
        ensures
            r == self.spec_bottom(),
    {
        self.bottom
    }

    /// The right edge.
    #[verifier::when_used_as_spec(spec_right)]
    pub fn right(&self) -> (r: i32)
        ensures
            r == self.spec_right(),
    {
        self.right
    }

    /// The top edge.
    #[verifier::when_used_as_spec(spec_top)]
    pub fn top(&self) -> (r: i32)
        ensures
            r == self.spec_top(),
    {
        self.top
    }
}

} // verus!
