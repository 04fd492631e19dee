use vstd::prelude::*;
use std::collections::hash_map::Entry;
use std::collections::HashMap;
use crate::simulator_context::{SimContext, SimView};
use crate::utils::SimID;

verus! {

broadcast use vstd::std_specs::hash::group_hash_axioms;

/// The mathematical content of the registry: the simulations by id, and the
/// id that was handed out last.
pub struct RegistryView<H> {
    pub contexts: Map<u64, SimView<H>>,
    pub id_count: u64,
}

impl<H> RegistryView<H> {
    /// The registry as it starts: the default simulation alone, under id 0.
    pub open spec fn initial() -> Self {
        RegistryView {
            contexts: Map::empty().insert(0, SimView::<H>::initial()),
            id_count: 1,
        }
    }

    /// What holds of every registry: no simulation has an id above the one
    /// handed out last, and every simulation is well formed.
    pub open spec fn wf(self) -> bool {
        &&& forall|id: u64| #[trigger] self.contexts.contains_key(id) ==> id <= self.id_count
        &&& forall|id: u64| self.contexts.contains_key(id) ==> (#[trigger] self.contexts[id]).wf()
    }

    /// The registry with `ctx` filed under the next id.
    pub open spec fn set_tx(self, ctx: SimView<H>) -> Self {
        RegistryView {
            contexts: self.contexts.insert((self.id_count + 1) as u64, ctx),
            id_count: (self.id_count + 1) as u64,
        }
    }

}

/// The contents of a table of simulations.
pub open spec fn context_views<H>(table: Map<u64, SimContext<H>>) -> Map<u64, SimView<H>> {
    Map::new(|id: u64| table.contains_key(id), |id: u64| table[id]@)
}

/// All the simulations of the host process, by id.
pub struct GlobalData<H> {
    tx_ctx: HashMap<u64, SimContext<H>>,
    tx_ctx_id_count: SimID,
}

impl<H> View for GlobalData<H> {
    type V = RegistryView<H>;

    closed spec fn view(&self) -> RegistryView<H> {
        RegistryView { contexts: context_views(self.tx_ctx@), id_count: self.tx_ctx_id_count.0 }
    }
}

impl<H> Default for GlobalData<H> {
    fn default() -> (data: Self)
        ensures
            data@ == RegistryView::<H>::initial(),
            data@.wf(),
    {
        let mut tx_ctx: HashMap<u64, SimContext<H>> = HashMap::new();
        tx_ctx.insert(0, SimContext::new());
        let data = GlobalData { tx_ctx, tx_ctx_id_count: SimID(1) };
        assert(data@.contexts =~= RegistryView::<H>::initial().contexts);
        data
    }
}

impl<H> GlobalData<H> {
    /// Puts the registry back to how it starts.
    pub fn clean(&mut self)
        ensures
            final(self)@ == RegistryView::<H>::initial(),
            final(self)@.wf(),
    {
        *self = GlobalData::default();
    }

    /// Files `ctx` under the next id and returns that id.
    pub fn set_tx(&mut self, ctx: SimContext<H>) -> (id: SimID)
        requires
            old(self)@.wf(),
            ctx.wf(),
            old(self)@.id_count < u64::MAX,
        ensures
            final(self)@.wf(),
            id.0 == old(self)@.id_count + 1,
            !old(self)@.contexts.contains_key(id.0),
            final(self)@ == old(self)@.set_tx(ctx@),
    {
        let ghost before = self@;
        let id = self.tx_ctx_id_count.next();
        self.tx_ctx.insert(id.0, ctx);
        assert(self@.contexts =~= before.set_tx(ctx@).contexts);
        id
    }

    /// The id that was handed out last.
    pub fn id_count(&self) -> (id: SimID)
        ensures
            id.0 == self@.id_count,
    {
        self.tx_ctx_id_count
    }

    /// Whether a simulation is filed under `id`.
    pub fn has_tx(&self, id: &SimID) -> (known: bool)
        ensures
            known == self@.contexts.contains_key(id.0),
    {
        self.tx_ctx.contains_key(&id.0)
    }

    /// The simulation filed under `id`.
    pub fn get_tx(&self, id: &SimID) -> (ctx: &SimContext<H>)
        requires
            self@.contexts.contains_key(id.0),
        ensures
            ctx@ == self@.contexts[id.0],
    {
        self.tx_ctx.get(&id.0).unwrap()
    }

    /// The simulation filed under `id`, to be changed in place.
    pub fn get_tx_mut(&mut self, id: &SimID) -> (ctx: &mut SimContext<H>)
        requires
            old(self)@.contexts.contains_key(id.0),
        ensures
            ctx@ == old(self)@.contexts[id.0],
            final(self)@.id_count == old(self)@.id_count,
            final(self)@.contexts =~= old(self)@.contexts.insert(id.0, final(ctx)@),
    {
        let found = match self.tx_ctx.entry(id.0) {
            Entry::Occupied(entry) => entry.into_mut(),
            Entry::Vacant(entry) => entry.insert(SimContext::new()),
        };
        found
    }
}

} // verus!
