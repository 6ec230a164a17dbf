//! The configuration of the DMA controller of the emulator.

use crate::dma_config::DmaConfig;
use vstd::prelude::*;

verus! {

/// The class of the emulated DMA controller.
pub const FUZZWARE_CLASS_NAME: &'static str =
    "fuzzware_harness.peripherals.generic_dma.GenericDMAC";

/// The name of the emulated DMA controller.
pub const PERIPHERAL_NAME: &'static str = "my_dma_periph";

/// An emulated peripheral.
#[derive(Debug)]
pub struct FuzzwarePeripheral {
    pub class: Option<String>,
    pub descriptors: DmaConfig,
}

/// The emulated peripherals by their names. No name has two entries.
#[derive(Debug)]
pub struct FuzzwareDmaConfig {
    pub peripherals: Vec<(String, FuzzwarePeripheral)>,
}

impl FuzzwareDmaConfig {
    /// No name has two entries, and the configuration of every peripheral is well-formed.
    pub open spec fn wf(self) -> bool {
        &&& forall|i: int, j: int|
            0 <= i < j < self.peripherals@.len() ==> (#[trigger] self.peripherals@[i]).0@ != (
            #[trigger] self.peripherals@[j]).0@
        &&& forall|i: int|
            0 <= i < self.peripherals@.len() ==> (
            #[trigger] self.peripherals@[i]).1.descriptors.wf()
    }
}

impl Default for FuzzwareDmaConfig {
    fn default() -> (res: Self)
        ensures
            res.peripherals@.len() == 0,
            res.wf(),
    {
        FuzzwareDmaConfig { peripherals: Vec::new() }
    }
}

impl FuzzwareDmaConfig {
    /// The configuration of a single DMA controller.
    pub fn from_dma_config(config: DmaConfig) -> (res: Self)
        ensures
            res.peripherals@.len() == 1,
            res.peripherals@[0].0@ == PERIPHERAL_NAME@,
            res.peripherals@[0].1.class matches Some(class) && class@ == FUZZWARE_CLASS_NAME@,
            res.peripherals@[0].1.descriptors == config,
            config.wf() ==> res.wf(),
    {
        let mut peripherals: Vec<(String, FuzzwarePeripheral)> = Vec::new();
        peripherals.push(
            (
                PERIPHERAL_NAME.to_owned(),
                FuzzwarePeripheral {
                    class: Some(FUZZWARE_CLASS_NAME.to_owned()),
                    descriptors: config,
                },
            ),
        );
        FuzzwareDmaConfig { peripherals }
    }
}

} // verus!
