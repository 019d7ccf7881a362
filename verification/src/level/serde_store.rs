use vstd::prelude::*;

verus! {

/// An encoder or decoder together with the information that turning sub chunks into their
/// intermediate form needs, owned.
pub struct SerDeStore<SerDeType, TransitionType = ()> {
    pub serde: SerDeType,
    pub information: TransitionType,
}

/// An encoder or decoder together with the information that turning sub chunks into their
/// intermediate form needs, borrowed.
pub struct SerDeStoreRef<'a, 'u, SerDeType, TransitionType> {
    pub serde: &'a mut SerDeType,
    pub information: &'u mut TransitionType,
}

impl<'a, 'u, SerDeType, TransitionType> SerDeStoreRef<'a, 'u, SerDeType, TransitionType> {
    pub fn new(serde: &'a mut SerDeType, information: &'u mut TransitionType) -> (r: Self)
        ensures
            *r.serde == *old(serde),
            *r.information == *old(information),
            *final(serde) == *final(r.serde),
            *final(information) == *final(r.information),
    {
        Self { serde, information }
    }
}

/// Access to an encoder or decoder and to its information.
pub trait SerDeTrait {
    type SerDe;

    type Info;

    fn serde(&mut self) -> &mut Self::SerDe;

    fn info(&mut self) -> &mut Self::Info;
}

impl<SerDeType, TransitionType> SerDeTrait for SerDeStoreRef<'_, '_, SerDeType, TransitionType> {
    type SerDe = SerDeType;

    type Info = TransitionType;

    fn serde(&mut self) -> (r: &mut Self::SerDe)
        ensures
            *r == *old(self).serde,
            *final(r) == *final(self).serde,
            *final(self).information == *old(self).information,
    {
        self.serde
    }

    fn info(&mut self) -> (r: &mut Self::Info)
        ensures
            *r == *old(self).information,
            *final(r) == *final(self).information,
            *final(self).serde == *old(self).serde,
    {
        self.information
    }
}

impl<SerDeType, TransitionType> SerDeTrait for SerDeStore<SerDeType, TransitionType> {
    type SerDe = SerDeType;

    type Info = TransitionType;

    fn serde(&mut self) -> (r: &mut Self::SerDe)
        ensures
            *r == old(self).serde,
            final(self).serde == *final(r),
            final(self).information == old(self).information,
    {
        &mut self.serde
    }

    fn info(&mut self) -> (r: &mut Self::Info)
        ensures
            *r == old(self).information,
            final(self).information == *final(r),
            final(self).serde == old(self).serde,
    {
        &mut self.information
    }
}

impl<SerDeType: Default, Transition: Default> Default for SerDeStore<SerDeType, Transition> {
    /// Each field is what its own type's `default` gives.
    fn default() -> (r: Self)
        ensures
            call_ensures(SerDeType::default, (), r.serde),
            call_ensures(Transition::default, (), r.information),
    {
        Self { serde: SerDeType::default(), information: Transition::default() }
    }
}

} // verus!
