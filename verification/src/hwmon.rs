//! The hwmon device-file protocol: fan-control modes and the discovery
//! predicate that recognizes an amdgpu device directory.

use vstd::prelude::*;

verus! {

/// Fan control mode as understood by the `pwm1_enable` node.
#[derive(Clone, Copy, PartialEq, Eq, Structural, Debug)]
pub enum Mode {
    Automatic,
    Manual,
}

impl Mode {
    /// The ASCII code the driver expects for this mode.
    pub open spec fn code_spec(self) -> u8 {
        if self is Automatic {
            50
        } else {
            49
        }
    }

    /// The code byte written to `pwm1_enable` to select this mode.
    pub fn code(self) -> (r: u8)
        ensures
            r == self.code_spec(),
    {
        match self {
            Mode::Automatic => 50,
            Mode::Manual => 49,
        }
    }

    /// The full command written to the node: the code byte and a newline.
    pub fn command(self) -> (v: Vec<u8>)
        ensures
            v@ == seq![self.code_spec(), 10],
    {
        let mut v: Vec<u8> = Vec::new();
        v.push(self.code());
        v.push(10);
        proof {
            assert(v@ =~= seq![self.code_spec(), 10]);
        }
        v
    }
}

/// The `name` file content that marks a hwmon directory as an amdgpu device.
pub open spec fn amdgpu_name() -> Seq<u8> {
    seq![97, 109, 100, 103, 112, 117, 10]
}

/// Discovery predicate: a hwmon directory is a valid target exactly when its
/// `name` file holds the amdgpu driver name and a newline.
pub fn is_amdgpu_name(content: &Vec<u8>) -> (r: bool)
    ensures
        r <==> content@ == amdgpu_name(),
{
    if content.len() != 7 {
        return false;
    }
    let r = content[0] == 97 && content[1] == 109 && content[2] == 100 && content[3] == 103
        && content[4] == 112 && content[5] == 117 && content[6] == 10;
    proof {
        if r {
            assert(content@ =~= amdgpu_name());
        }
    }
    r
}

} // verus!
