use nanotekspice::components::tristate::Tristate;
use nanotekspice::pin::pin::{OutputComputationMethod, Pin, UnidirectionalOutputPin};

#[test]
fn pin_test_default() {
    let pin = UnidirectionalOutputPin::new(OutputComputationMethod::Manual(true.into()));

    assert_eq!(pin.compute_for_external(), true.into());
}

#[test]
fn a_floating_output_is_undefined() {
    let pin = UnidirectionalOutputPin::new(OutputComputationMethod::Floating);

    assert_eq!(pin.compute_for_external(), Tristate::Undefined);
}
