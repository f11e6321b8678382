//! The quantised coefficients of an image: what a hash holds, as numbers.

use vstd::prelude::*;

use crate::alternating_current::quantised;

verus! {

/// The coefficients that a hash holds, each channel quantised to an integer.
#[derive(Debug, PartialEq, Eq)]
pub struct Coefficients {
    /// How many coefficients a row has.
    pub components_x: usize,
    /// How many rows of coefficients there are.
    pub components_y: usize,
    /// The greatest magnitude among the coefficients above the average,
    /// quantised to `0..=82`: it stands for `(quantised_maximum + 1) / 166`.
    pub quantised_maximum: u32,
    /// The average colour, as three gamma-encoded channels.
    pub dc: [u8; 3],
    /// The other coefficients row after row, each as three digits.
    pub ac: Vec<[u32; 3]>,
}

/// The mathematical value of [`Coefficients`].
pub struct CoefficientsView {
    pub components_x: nat,
    pub components_y: nat,
    pub quantised_maximum: nat,
    pub dc: [u8; 3],
    pub ac: Seq<[u32; 3]>,
}

impl View for Coefficients {
    type V = CoefficientsView;

    open spec fn view(&self) -> CoefficientsView {
        CoefficientsView {
            components_x: self.components_x as nat,
            components_y: self.components_y as nat,
            quantised_maximum: self.quantised_maximum as nat,
            dc: self.dc,
            ac: self.ac@,
        }
    }
}

impl Coefficients {
    /// Where the coefficient in column `i` of row `j` of the grid stands
    /// when the rows follow one another: 0 for the average colour, and one
    /// more than its place in `ac` for every other.
    pub fn grid_index(&self, i: usize, j: usize) -> (index: usize)
        requires
            self@.readable(),
            i < self.components_x,
            j < self.components_y,
        ensures
            index == j * self.components_x + i,
            index <= self.ac@.len(),
    {
        let ghost across = self.components_x;
        let ghost down = self.components_y;
        assert(j * across + i < across * down <= 90) by (nonlinear_arith)
            requires
                i < across <= 9,
                j < down <= 10,
        ;
        j * self.components_x + i
    }
}

impl CoefficientsView {
    /// Whether these are coefficients that a hash can hold: up to 9
    /// components across and up to 10 down, one coefficient for each cell of
    /// the grid, a maximum of at most 82, and in each coefficient above the
    /// average a first digit of at most 19 and two more of at most 18.
    pub open spec fn readable(self) -> bool {
        &&& 1 <= self.components_x <= 9
        &&& 1 <= self.components_y <= 10
        &&& self.ac.len() + 1 == self.components_x * self.components_y
        &&& self.quantised_maximum <= 82
        &&& forall|i: int|
            0 <= i < self.ac.len() ==> {
                &&& (#[trigger] self.ac[i])[0] <= 19
                &&& self.ac[i][1] <= 18
                &&& self.ac[i][2] <= 18
            }
    }

    /// Whether these are coefficients that an encoder writes: component
    /// counts from 1 to 9, one coefficient for each cell of the grid, a
    /// maximum of at most 82 that is 0 where the average stands alone, and
    /// digits of at most 18.
    pub open spec fn encodable(self) -> bool {
        &&& 1 <= self.components_x <= 9
        &&& 1 <= self.components_y <= 9
        &&& self.ac.len() + 1 == self.components_x * self.components_y
        &&& self.quantised_maximum <= 82
        &&& self.ac.len() == 0 ==> self.quantised_maximum == 0
        &&& forall|i: int| 0 <= i < self.ac.len() ==> quantised(#[trigger] self.ac[i])
    }
}

} // verus!
