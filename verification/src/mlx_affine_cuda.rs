//! Matrices of packed codes with a scale and a bias for every group of columns, on a
//! device that multiplies them by a vector.
//!
//! The device is the caller's. Here stands which matrices it takes, and what is asked
//! of it in which order.

use vstd::prelude::*;

verus! {

/// How many threads of the device share a row.
pub const BLOCK: u32 = 256;

/// A product as it is asked for: the shape of the matrix, and the lengths of all
/// vectors involved.
#[derive(Clone, Copy, Debug, PartialEq, Eq, Structural)]
pub struct AffineCall {
    pub bits: u8,
    pub group_size: usize,
    pub cols: usize,
    pub rows: usize,
    pub x: usize,
    pub y: usize,
    pub weights: usize,
    pub scales: usize,
    pub biases: usize,
}

impl AffineCall {
    /// The matrix and the vectors fit: codes of four, five, six or eight bits fill
    /// whole words in every row, groups divide the columns, and a scale and a bias
    /// stand for every group of every row, two bytes each.
    pub open spec fn fits(self) -> bool {
        let (bits, cols, rows) = (self.bits as int, self.cols as int, self.rows as int);
        &&& bits == 4 || bits == 5 || bits == 6 || bits == 8
        &&& self.group_size != 0 && cols != 0 && rows != 0
        &&& cols % self.group_size as int == 0
        &&& self.x == cols && self.y == rows
        &&& (cols * bits) % 32 == 0
        &&& self.weights == rows * (cols * bits / 8)
        &&& self.scales == rows * (cols / self.group_size as int) * 2
        &&& self.biases == self.scales
    }

    /// Whether the matrix and the vectors fit.
    pub fn accepts(&self) -> (r: bool)
        ensures
            r == self.fits(),
    {
        let bits: u128 = self.bits as u128;
        if !(bits == 4 || bits == 5 || bits == 6 || bits == 8) || self.group_size == 0 || self.cols == 0
            || self.rows == 0 || self.cols % self.group_size != 0 || self.x != self.cols || self.y
            != self.rows {
            return false;
        }
        let cols: u128 = self.cols as u128;
        let rows: u128 = self.rows as u128;
        let groups: u128 = (self.cols / self.group_size) as u128;
        proof {
            assert(cols * bits <= cols * 8) by (nonlinear_arith)
                requires
                    bits <= 8,
            ;
        }
        if cols * bits % 32 != 0 {
            return false;
        }
        let row_bytes: u128 = cols * bits / 8;
        proof {
            let s = self.group_size as int;
            assert(groups <= cols) by (nonlinear_arith)
                requires
                    groups == cols as int / s,
                    s >= 1,
            ;
            assert(rows * row_bytes <= 0xffff_ffff_ffff_ffff * 0xffff_ffff_ffff_ffff)
                by (nonlinear_arith)
                requires
                    rows <= 0xffff_ffff_ffff_ffff,
                    row_bytes <= 0xffff_ffff_ffff_ffff,
            ;
            assert(rows * groups <= 0xffff_ffff_ffff_ffff * 0xffff_ffff_ffff_ffff)
                by (nonlinear_arith)
                requires
                    rows <= 0xffff_ffff_ffff_ffff,
                    groups <= 0xffff_ffff_ffff_ffff,
            ;
        }
        self.weights as u128 == rows * row_bytes && self.scales % 2 == 0 && self.scales as u128 / 2
            == rows * groups && self.biases == self.scales
    }
}

/// What is to be done next for a product.
#[derive(Clone, Copy, Debug, PartialEq, Eq, Structural)]
pub enum AffineStage {
    /// See whether there is a device.
    Device,
    /// Have the kernel compiled.
    Kernel,
    /// Upload weights, scales and biases, in this order.
    Weights,
    Scales,
    Biases,
    /// Upload the vector.
    Vector,
    /// Make room for the result.
    Room,
    /// Launch the kernel, one block for every row.
    Launch,
    /// Bring the result back.
    Download,
    Done,
    Declined,
}

/// What the device has of a matrix, and how many matrices have been uploaded in all.
#[derive(Clone, Copy, Debug, PartialEq, Eq, Structural)]
pub struct ResidentAffine {
    pub resident: bool,
    pub uploads: u64,
}

impl ResidentAffine {
    /// How many matrices have been uploaded.
    pub fn weight_uploads(&self) -> (r: u64)
        ensures
            r == self.uploads,
    {
        self.uploads
    }

    /// What follows a stage. Weights go up once, and then stay.
    pub open spec fn after(self, stage: AffineStage, ok: bool) -> (ResidentAffine, AffineStage) {
        match stage {
            AffineStage::Done => (self, stage),
            AffineStage::Declined => (self, stage),
            _ => if !ok {
                (self, AffineStage::Declined)
            } else {
                match stage {
                    AffineStage::Device => (self, AffineStage::Kernel),
                    AffineStage::Kernel => (
                        self,
                        if self.resident {
                            AffineStage::Vector
                        } else {
                            AffineStage::Weights
                        },
                    ),
                    AffineStage::Weights => (self, AffineStage::Scales),
                    AffineStage::Scales => (self, AffineStage::Biases),
                    AffineStage::Biases => (
                        ResidentAffine {
                            resident: true,
                            uploads: if self.uploads == u64::MAX {
                                0
                            } else {
                                (self.uploads + 1) as u64
                            },
                        },
                        AffineStage::Vector,
                    ),
                    AffineStage::Vector => (self, AffineStage::Room),
                    AffineStage::Room => (self, AffineStage::Launch),
                    AffineStage::Launch => (self, AffineStage::Download),
                    _ => (self, AffineStage::Done),
                }
            },
        }
    }

    /// Where a product begins.
    pub fn start(&self, call: &AffineCall) -> (r: AffineStage)
        ensures
            r == (if call.fits() {
                AffineStage::Device
            } else {
                AffineStage::Declined
            }),
    {
        if call.accepts() {
            AffineStage::Device
        } else {
            AffineStage::Declined
        }
    }

    /// Goes on to the next stage.
    pub fn step(&mut self, stage: AffineStage, ok: bool) -> (r: AffineStage)
        ensures
            (*final(self), r) == old(self).after(stage, ok),
    {
        let next: AffineStage = match stage {
            AffineStage::Done => {
                return stage;
            },
            AffineStage::Declined => {
                return stage;
            },
            AffineStage::Device => AffineStage::Kernel,
            AffineStage::Kernel => if self.resident {
                AffineStage::Vector
            } else {
                AffineStage::Weights
            },
            AffineStage::Weights => AffineStage::Scales,
            AffineStage::Scales => AffineStage::Biases,
            AffineStage::Biases => AffineStage::Vector,
            AffineStage::Vector => AffineStage::Room,
            AffineStage::Room => AffineStage::Launch,
            AffineStage::Launch => AffineStage::Download,
            AffineStage::Download => AffineStage::Done,
        };
        if !ok {
            return AffineStage::Declined;
        }
        match stage {
            AffineStage::Biases => {
                self.resident = true;
                self.uploads = self.uploads.wrapping_add(1);
            },
            _ => {},
        }
        next
    }
}

/// A matrix that the device has is not uploaded again.
pub proof fn law_weights_go_up_once(r: ResidentAffine, stage: AffineStage, ok: bool)
    requires
        r.resident,
        !(stage is Weights || stage is Scales || stage is Biases),
    ensures
        ({
            let (s, next) = r.after(stage, ok);
            s == r && !(next is Weights || next is Scales || next is Biases)
        }),
{
}

/// How far a product is from its end.
pub open spec fn affine_distance(stage: AffineStage) -> int {
    match stage {
        AffineStage::Device => 9,
        AffineStage::Kernel => 8,
        AffineStage::Weights => 7,
        AffineStage::Scales => 6,
        AffineStage::Biases => 5,
        AffineStage::Vector => 4,
        AffineStage::Room => 3,
        AffineStage::Launch => 2,
        AffineStage::Download => 1,
        AffineStage::Done => 0,
        AffineStage::Declined => 0,
    }
}

/// Every product is made or declined after finitely many stages.
pub proof fn law_every_product_ends(r: ResidentAffine, stage: AffineStage, ok: bool)
    requires
        affine_distance(stage) > 0,
    ensures
        0 <= affine_distance(r.after(stage, ok).1) < affine_distance(stage),
{
}

/// A product is taken on where its parts fit together: a code of four, five, six or eight bits for every
/// weight, rows of whole words, and two bytes of scale and of bias for every group.
pub proof fn law_what_fits_together(call: AffineCall)
    requires
        call.fits(),
    ensures
        call.bits == 4 || call.bits == 5 || call.bits == 6 || call.bits == 8,
        call.weights * 8 == call.rows * (call.cols * call.bits),
        (call.cols * call.bits) % 32 == 0,
        call.scales * call.group_size == 2 * (call.rows * call.cols),
        call.biases == call.scales,
        call.x == call.cols && call.y == call.rows,
        call.rows > 0 && call.cols > 0,
{
    let (b, c, r, g) = (call.bits as int, call.cols as int, call.rows as int, call.group_size as int);
    let k = c * b / 8;
    assert(8 * k == c * b);
    assert((r * k) * 8 == r * (8 * k)) by (nonlinear_arith);
    let n = c / g;
    vstd::arithmetic::div_mod::lemma_fundamental_div_mod(c, g);
    assert((r * n * 2) * g == 2 * (r * (g * n))) by (nonlinear_arith);
}

/// A product that goes well goes on stage by stage: the device and its kernel, the three parts of a matrix
/// that is not there yet, the vector, the room for the result, the launch, and the result.
pub proof fn law_a_product_goes_stage_by_stage(r: ResidentAffine)
    ensures
        r.after(AffineStage::Device, true).1 is Kernel,
        r.resident ==> r.after(AffineStage::Kernel, true).1 is Vector,
        !r.resident ==> r.after(AffineStage::Kernel, true).1 is Weights,
        r.after(AffineStage::Weights, true).1 is Scales,
        r.after(AffineStage::Scales, true).1 is Biases,
        r.after(AffineStage::Biases, true).1 is Vector,
        r.after(AffineStage::Biases, true).0.resident,
        r.uploads < u64::MAX ==> r.after(AffineStage::Biases, true).0.uploads == r.uploads + 1,
        r.after(AffineStage::Vector, true).1 is Room,
        r.after(AffineStage::Room, true).1 is Launch,
        r.after(AffineStage::Launch, true).1 is Download,
        r.after(AffineStage::Download, true).1 is Done,
        forall|stage: AffineStage|
            !(stage is Biases) ==> (#[trigger] r.after(stage, true)).0 == r,
        forall|stage: AffineStage|
            !(stage is Done) ==> #[trigger] r.after(stage, false) == (r, AffineStage::Declined),
{
}

} // verus!
