//! The command-line surface as plain data, and the sensor selector.

use vstd::prelude::*;

verus! {

/// Which hwmon temperature node the controller samples.
#[derive(Clone, Copy, PartialEq, Eq, Structural, Debug)]
pub enum SensorType {
    Edge,
    Junction,
    Memory,
}

impl SensorType {
    /// Name of the sysfs node that reports this sensor's temperature.
    pub fn file_name(self) -> (r: &'static str)
        ensures
            self is Edge ==> r@ == "temp1_input"@,
            self is Junction ==> r@ == "temp2_input"@,
            self is Memory ==> r@ == "temp3_input"@,
    {
        match self {
            SensorType::Edge => "temp1_input",
            SensorType::Junction => "temp2_input",
            SensorType::Memory => "temp3_input",
        }
    }

    /// The sensor actually opened: the selected one where its node exists,
    /// otherwise the fixed fallback, the edge sensor.
    pub fn resolve(self, selected_exists: bool) -> (r: SensorType)
        ensures
            selected_exists ==> r == self,
            !selected_exists ==> r is Edge,
    {
        if selected_exists {
            self
        } else {
            SensorType::Edge
        }
    }
}

/// Parsed command line, free of any argument-parser types.
pub struct Args {
    pub command: ArgCommands,
}

/// The two subcommands: run a control session, or list valid devices.
pub enum ArgCommands {
    Run { config_path: String, hwmon_path: Option<String>, sensor_type: SensorType },
    Find,
}

} // verus!
