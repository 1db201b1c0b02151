//! Where components come from.

use vstd::prelude::*;

use crate::components::chipset::Chipset;
use crate::components::composite::parallel_gates::{ParallelGatesOneInput, ParallelGatesTwoInputs};
use crate::components::dummy::DummyComponent;
use crate::components::gates::two_inputs::Operation;
use crate::components::single_pin::clock_component::ClockComponent;
use crate::components::single_pin::const_component::{FalseComponent, TrueComponent};
use crate::components::single_pin::input_component::InputComponent;
use crate::components::single_pin::output_component::OutputComponent;
use crate::components::types::ComponentType;
use crate::pin::container::PinSpecification;
use crate::pin::pin::PinState;

verus! {

/// Makes the components of a circuit from the names of their types.
///
/// An implementation outside this library must, like the one in it, hand
/// out components as the catalog makes them: well formed, never evaluated
/// and linked to nothing. The circuit builder relies on it. What an
/// implementation recognizes, names and makes is what it says in
/// `recognized`, `name_of` and `makes`; where it says nothing, nothing is
/// known of it.
pub trait ComponentFactory {
    /// How the factory tells its types apart.
    type Type: Copy;

    /// The type that a name stands for, if any.
    open spec fn recognized(&self, name: Seq<char>) -> Option<Self::Type> {
        arbitrary()
    }

    /// The name of a type.
    open spec fn name_of(&self, component_type: Self::Type) -> Seq<char> {
        arbitrary()
    }

    /// Reads the name of a type.
    fn parse_type(&self, name: &str) -> (r: Option<Self::Type>)
        ensures
            r == self.recognized(name@),
    ;

    /// Writes the name of a type.
    fn describe(&self, component_type: Self::Type) -> (r: String)
        ensures
            r@ == self.name_of(component_type),
    ;

    /// Whether a component is one of the given type.
    open spec fn makes(&self, component_type: Self::Type, chipset: Chipset) -> bool {
        true
    }

    /// Makes a component of the given type.
    fn create_component(&self, component_type: Self::Type) -> (r: Chipset)
        ensures
            r.is_new(),
            self.makes(component_type, r),
    ;
}

/// The factory of the catalog.
#[derive(Debug, Clone, Copy)]
pub struct DefaultComponentFactory;

impl DefaultComponentFactory {
    /// Whether a component is of the given type of the catalog.
    pub open spec fn is_a(chipset: Chipset, component_type: ComponentType) -> bool {
        match component_type {
            ComponentType::Input => chipset is Input,
            ComponentType::Output => chipset is Output,
            ComponentType::Clock => chipset is Clock,
            ComponentType::True => chipset is True,
            ComponentType::False => chipset is False,
            ComponentType::C4001 => chipset matches Chipset::ParallelTwo(c) && c.operation
                == Operation::Nor,
            ComponentType::C4011 => chipset matches Chipset::ParallelTwo(c) && c.operation
                == Operation::Nand,
            ComponentType::C4030 => chipset matches Chipset::ParallelTwo(c) && c.operation
                == Operation::Xor,
            ComponentType::C4069 => chipset is ParallelOne,
            ComponentType::C4071 => chipset matches Chipset::ParallelTwo(c) && c.operation
                == Operation::Or,
            ComponentType::C4081 => chipset matches Chipset::ParallelTwo(c) && c.operation
                == Operation::And,
        }
    }

    /// Makes the component that the catalog lists under `component_type`.
    pub fn build(component_type: ComponentType) -> (r: Chipset)
        ensures
            r.is_new(),
            r.blank(),
            Self::is_a(r, component_type),
    {
        match component_type {
            ComponentType::Input => {
                let r = Chipset::Input(InputComponent::new());
                proof {
                    lemma_simple_is_new(r);
                }
                r
            },
            ComponentType::Output => {
                let r = Chipset::Output(OutputComponent::new());
                proof {
                    assert(r.pins().pin(1).fresh(Some(PinSpecification::UnidirectionalInput())));
                    lemma_simple_is_new(r);
                }
                r
            },
            ComponentType::Clock => {
                let r = Chipset::Clock(ClockComponent::new());
                proof {
                    lemma_simple_is_new(r);
                }
                r
            },
            ComponentType::True => {
                let r = Chipset::True(TrueComponent::new());
                proof {
                    lemma_simple_is_new(r);
                }
                r
            },
            ComponentType::False => {
                let r = Chipset::False(FalseComponent::new());
                proof {
                    lemma_simple_is_new(r);
                }
                r
            },
            ComponentType::C4001 => Self::parallel(Operation::Nor),
            ComponentType::C4011 => Self::parallel(Operation::Nand),
            ComponentType::C4030 => Self::parallel(Operation::Xor),
            ComponentType::C4069 => {
                let c = ParallelGatesOneInput::new();
                proof {
                    lemma_parallel_one_is_new(c);
                }
                Chipset::ParallelOne(c)
            },
            ComponentType::C4071 => Self::parallel(Operation::Or),
            ComponentType::C4081 => Self::parallel(Operation::And),
        }
    }

    /// Makes four gates of one operation behind fourteen pins.
    fn parallel(operation: Operation) -> (r: Chipset)
        ensures
            r.is_new(),
            r.blank(),
            r matches Chipset::ParallelTwo(c) && c.operation == operation,
    {
        let c = ParallelGatesTwoInputs::new(operation);
        proof {
            lemma_parallel_two_is_new(c);
        }
        Chipset::ParallelTwo(c)
    }

    /// Makes a component of `nb_pins` floating pins.
    pub fn dummy(nb_pins: usize) -> (r: Chipset)
        ensures
            r.is_new(),
            r is Dummy,
            r.pins().size() == nb_pins,
    {
        let c = DummyComponent::new(nb_pins);
        let r = Chipset::Dummy(c);
        proof {
            assert forall|inner: Option<usize>| #[trigger] r.has_part(inner) implies {
                &&& r.container(inner).state == PinState::NeverComputed
                &&& forall|i: int, internal: bool|
                    0 <= i < r.container(inner).all_pins@.len() && (#[trigger] r.container(
                        inner,
                    ).all_pins@[i].entity(internal)) is Some ==> r.container(
                        inner,
                    ).all_pins@[i].entity(internal).unwrap().input_state
                        == PinState::NeverComputed
            } by {
                assert(inner is None);
                assert forall|i: int, internal: bool|
                    0 <= i < c.pins.all_pins@.len() implies (#[trigger] c.pins.all_pins@[i].entity(
                    internal,
                )) is None by {
                    assert(c.pins.all_pins@[i].input() is None);
                }
            }
            assert forall|inner: Option<usize>, i: int, internal: bool, k: int|
                #![trigger r.container(inner).all_pins@[i].entity(internal).unwrap().links@[k]]
                r.has_part(inner) && 0 <= i < r.container(inner).all_pins@.len() && r.container(
                    inner,
                ).all_pins@[i].entity(internal) is Some && 0 <= k < r.container(
                    inner,
                ).all_pins@[i].entity(internal).unwrap().links@.len() implies r.link_inside(
                r.container(inner).all_pins@[i].entity(internal).unwrap().links@[k],
            ) by {
                assert(c.pins.all_pins@[i].input() is None);
            }
        }
        r
    }
}

/// A freshly made component with one pin is as the catalog makes it.
proof fn lemma_simple_is_new(r: Chipset)
    requires
        r.well_formed(),
        r is Input || r is Output || r is Clock || r is True || r is False,
        r.pins().state == PinState::NeverComputed,
        r.pins().pin(1).input() matches Some(pin) ==> pin.is_fresh(),
        !(r.pins().pin(1).driver() matches Some(
            crate::pin::pin::OutputComputationMethod::Automatic(_),
        )),
    ensures
        r.is_new(),
{
    assert forall|inner: Option<usize>| #[trigger] r.has_part(inner) implies {
        &&& r.container(inner).state == PinState::NeverComputed
        &&& forall|i: int, internal: bool|
            0 <= i < r.container(inner).all_pins@.len() && (#[trigger] r.container(
                inner,
            ).all_pins@[i].entity(internal)) is Some ==> r.container(inner).all_pins@[i].entity(
                internal,
            ).unwrap().input_state == PinState::NeverComputed
    } by {
        assert(inner is None);
        assert(r.pins().all_pins@.len() == 1);
    }
    assert forall|inner: Option<usize>, i: int, internal: bool, k: int|
        #![trigger r.container(inner).all_pins@[i].entity(internal).unwrap().links@[k]]
        r.has_part(inner) && 0 <= i < r.container(inner).all_pins@.len() && r.container(
            inner,
        ).all_pins@[i].entity(internal) is Some && 0 <= k < r.container(inner).all_pins@[i].entity(
            internal,
        ).unwrap().links@.len() implies r.link_inside(
        r.container(inner).all_pins@[i].entity(internal).unwrap().links@[k],
    ) by {
        assert(inner is None);
        assert(i == 0);
    }
}

/// A freshly made circuit of six inverters is as the catalog makes it.
proof fn lemma_parallel_one_is_new(c: ParallelGatesOneInput)
    requires
        c.well_formed(),
        c.fresh(),
    ensures
        Chipset::ParallelOne(c).is_new(),
{
    let r = Chipset::ParallelOne(c);
    assert forall|inner: Option<usize>, i: int, internal: bool|
        r.has_part(inner) && 0 <= i < r.container(inner).all_pins@.len() && (
        #[trigger] r.container(inner).all_pins@[i].entity(internal)) is Some implies {
        let entity = r.container(inner).all_pins@[i].entity(internal).unwrap();
        &&& entity.input_state == PinState::NeverComputed
        &&& forall|k: int| 0 <= k < entity.links@.len() ==> r.link_inside(#[trigger] entity.links@[k])
    } by {
        match inner {
            None => {
                let p = i + 1;
                if p != 7 && p != 14 {
                    let k = ParallelGatesOneInput::gate_of(p);
                    assert(ParallelGatesOneInput::wired(c.pins, c.components@[k], k));
                    assert(ParallelGatesOneInput::untouched(c.pins, c.components@[k], k));
                    assert(p == ParallelGatesOneInput::input_of(k) || p
                        == ParallelGatesOneInput::output_of(k));
                    assert(r.subs()[k] == c.components@[k].pins);
                }
            },
            Some(g) => {
                let k = g as int;
                assert(ParallelGatesOneInput::wired(c.pins, c.components@[k], k));
                assert(ParallelGatesOneInput::untouched(c.pins, c.components@[k], k));
                assert(r.subs()[k] == c.components@[k].pins);
            },
        }
    }
    assert forall|inner: Option<usize>| #[trigger] r.has_part(inner) implies r.container(
        inner,
    ).state == PinState::NeverComputed by {
        if let Some(g) = inner {
            assert(ParallelGatesOneInput::untouched(c.pins, c.components@[g as int], g as int));
        }
    }
}

/// A freshly made circuit of four gates is as the catalog makes it.
proof fn lemma_parallel_two_is_new(c: ParallelGatesTwoInputs)
    requires
        c.well_formed(),
        c.fresh(),
    ensures
        Chipset::ParallelTwo(c).is_new(),
{
    let r = Chipset::ParallelTwo(c);
    assert forall|inner: Option<usize>, i: int, internal: bool|
        r.has_part(inner) && 0 <= i < r.container(inner).all_pins@.len() && (
        #[trigger] r.container(inner).all_pins@[i].entity(internal)) is Some implies {
        let entity = r.container(inner).all_pins@[i].entity(internal).unwrap();
        &&& entity.input_state == PinState::NeverComputed
        &&& forall|k: int| 0 <= k < entity.links@.len() ==> r.link_inside(#[trigger] entity.links@[k])
    } by {
        match inner {
            None => {
                let p = i + 1;
                if p != 7 && p != 14 {
                    let k = ParallelGatesTwoInputs::gate_of(p);
                    assert(ParallelGatesTwoInputs::wired(c.pins, c.components@[k], k));
                    assert(ParallelGatesTwoInputs::untouched(c.pins, c.components@[k], k));
                    assert(ParallelGatesTwoInputs::belongs_to(p as usize, k));
                    assert(r.subs()[k] == c.components@[k].pins);
                }
            },
            Some(g) => {
                let k = g as int;
                assert(ParallelGatesTwoInputs::wired(c.pins, c.components@[k], k));
                assert(ParallelGatesTwoInputs::untouched(c.pins, c.components@[k], k));
                assert(r.subs()[k] == c.components@[k].pins);
            },
        }
    }
    assert forall|inner: Option<usize>| #[trigger] r.has_part(inner) implies r.container(
        inner,
    ).state == PinState::NeverComputed by {
        if let Some(g) = inner {
            assert(ParallelGatesTwoInputs::untouched(c.pins, c.components@[g as int], g as int));
        }
    }
}

impl ComponentFactory for DefaultComponentFactory {
    type Type = ComponentType;

    open spec fn recognized(&self, name: Seq<char>) -> Option<ComponentType> {
        ComponentType::named(name)
    }

    open spec fn name_of(&self, component_type: ComponentType) -> Seq<char> {
        component_type.name()
    }

    fn parse_type(&self, name: &str) -> (r: Option<ComponentType>) {
        assert(self.recognized(name@) == ComponentType::named(name@));
        match ComponentType::parse(name) {
            Ok(component_type) => Some(component_type),
            Err(_) => None,
        }
    }

    fn describe(&self, component_type: ComponentType) -> (r: String) {
        assert(self.name_of(component_type) == component_type.name());
        component_type.to_string()
    }

    open spec fn makes(&self, component_type: ComponentType, chipset: Chipset) -> bool {
        DefaultComponentFactory::is_a(chipset, component_type) && chipset.blank()
    }

    fn create_component(&self, component_type: ComponentType) -> (r: Chipset) {
        let r = Self::build(component_type);
        assert(self.makes(component_type, r) == (DefaultComponentFactory::is_a(r, component_type)
            && r.blank()));
        r
    }
}

} // verus!
