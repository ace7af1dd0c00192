//! The device tensors that clients have registered. Whoever holds the tensors themselves
//! knows them by their handles; here is which of them belong to which context.

use vstd::prelude::*;
use vstd::string::*;
use crate::keyed::{
    as_map, find_named, has_key, is_entry, lemma_place, lemma_push, lemma_remove, lookup, named,
    unique_keys,
};
use crate::text::{
    has_prefix, join2, join3, push_signed, same_text, signed_decimal, starts_with,
};

verus! {

/// Where the memory of a tensor lies.
#[derive(Clone, Copy, Debug, PartialEq, Eq, Structural)]
pub struct TensorMetadata {
    pub data_ptr: u64,
    pub size_bytes: usize,
    pub device_id: i32,
}

/// A tensor that was brought into this process.
#[derive(Clone, Copy, Debug, PartialEq, Eq, Structural)]
pub struct LayerTensor {
    pub handle: u64,
    pub metadata: TensorMetadata,
}

/// The tensors of a context, all on one device.
#[derive(Debug)]
pub struct ContextState {
    pub device_id: i32,
    pub tensors: Vec<(String, LayerTensor)>,
}

/// A context as plain values.
#[verifier::ext_equal]
pub struct ContextView {
    pub device_id: i32,
    pub tensors: Seq<(Seq<char>, LayerTensor)>,
}

impl View for ContextState {
    type V = ContextView;

    open spec fn view(&self) -> ContextView {
        ContextView { device_id: self.device_id, tensors: named(self.tensors@) }
    }
}

impl ContextState {
    /// A context without tensors.
    pub fn new(device_id: i32) -> (r: Self)
        ensures
            r.device_id == device_id,
            r.tensors@.len() == 0,
    {
        ContextState { device_id, tensors: Vec::new() }
    }
}

/// Contexts with their keys, as plain values.
pub open spec fn context_views(v: Seq<(String, ContextState)>) -> Seq<(Seq<char>, ContextView)> {
    v.map_values(|e: (String, ContextState)| (e.0@, e.1@))
}

/// The handles of a context's tensors.
pub open spec fn handles_of(c: ContextView) -> Seq<u64> {
    c.tensors.map_values(|t: (Seq<char>, LayerTensor)| t.1.handle)
}

/// The contexts whose keys do not begin with a prefix.
pub open spec fn others(s: Seq<(Seq<char>, ContextView)>, prefix: Seq<char>) -> Seq<
    (Seq<char>, ContextView),
>
    decreases s.len(),
{
    if s.len() == 0 {
        s
    } else if has_prefix(s.last().0, prefix) {
        others(s.drop_last(), prefix)
    } else {
        others(s.drop_last(), prefix).push(s.last())
    }
}

/// The handles of the contexts whose keys begin with a prefix.
pub open spec fn handles_under(s: Seq<(Seq<char>, ContextView)>, prefix: Seq<char>) -> Seq<u64>
    decreases s.len(),
{
    if s.len() == 0 {
        Seq::empty()
    } else if has_prefix(s.last().0, prefix) {
        handles_under(s.drop_last(), prefix) + handles_of(s.last().1)
    } else {
        handles_under(s.drop_last(), prefix)
    }
}

/// A layer with the tensor that was made for it, or why there is none.
#[derive(Debug)]
pub struct LayerResult {
    pub layer_name: String,
    pub tensor: Result<LayerTensor, String>,
}

/// Whether a layer has the name of an earlier one.
pub open spec fn repeated(names: Seq<Seq<char>>, i: int) -> bool {
    exists|k: int| 0 <= k < i && #[trigger] names[k] == names[i]
}

/// The first of the first `n` layers that has the name of an earlier one.
pub open spec fn first_repeat(names: Seq<Seq<char>>, n: int) -> Option<int>
    decreases n,
{
    if n <= 0 {
        None
    } else if first_repeat(names, n - 1) is Some {
        first_repeat(names, n - 1)
    } else if repeated(names, n - 1) {
        Some(n - 1)
    } else {
        None
    }
}

/// Why a context cannot be registered, before any tensor is made: it exists, or a layer
/// appears twice.
pub open spec fn context_fault(
    contexts: Seq<(Seq<char>, ContextView)>,
    key: Seq<char>,
    names: Seq<Seq<char>>,
) -> Option<Seq<char>> {
    if has_key(contexts, key) {
        Some("context "@ + key + " is already registered"@)
    } else {
        match first_repeat(names, names.len() as int) {
            Some(i) => Some(
                "layer "@ + names[i] + " appears more than once in context "@ + key,
            ),
            None => None,
        }
    }
}

/// The names of some layers.
pub open spec fn layer_names(layers: Seq<LayerResult>) -> Seq<Seq<char>> {
    layers.map_values(|l: LayerResult| l.layer_name@)
}

/// Why a tensor does not fit its context.
pub open spec fn tensor_fault(l: LayerResult, key: Seq<char>, device_id: i32) -> Option<Seq<char>> {
    match l.tensor {
        Err(m) => Some(m@),
        Ok(t) => if t.metadata.device_id != device_id {
            Some(
                "context "@ + key + " is pinned to device "@ + signed_decimal(device_id as int)
                    + " but got "@ + signed_decimal(t.metadata.device_id as int),
            )
        } else {
            None
        },
    }
}

/// What is wrong with the first of the first `n` tensors that something is wrong with.
pub open spec fn first_tensor_fault(
    layers: Seq<LayerResult>,
    key: Seq<char>,
    device_id: i32,
    n: int,
) -> Option<Seq<char>>
    decreases n,
{
    if n <= 0 {
        None
    } else if first_tensor_fault(layers, key, device_id, n - 1) is Some {
        first_tensor_fault(layers, key, device_id, n - 1)
    } else {
        tensor_fault(layers[n - 1], key, device_id)
    }
}

/// The tensors of some layers.
pub open spec fn layer_tensors(layers: Seq<LayerResult>) -> Seq<(Seq<char>, LayerTensor)> {
    layers.map_values(|l: LayerResult| (l.layer_name@, l.tensor->Ok_0))
}

proof fn lemma_repeat_stays(names: Seq<Seq<char>>, m: int, n: int)
    requires
        m <= n,
    ensures
        first_repeat(names, m) is Some ==> first_repeat(names, n) == first_repeat(names, m),
    decreases n - m,
{
    if m < n {
        lemma_repeat_stays(names, m, n - 1);
    }
}

proof fn lemma_tensor_fault_stays(
    layers: Seq<LayerResult>,
    key: Seq<char>,
    device_id: i32,
    m: int,
    n: int,
)
    requires
        m <= n,
    ensures
        first_tensor_fault(layers, key, device_id, m) is Some ==> first_tensor_fault(
            layers,
            key,
            device_id,
            n,
        ) == first_tensor_fault(layers, key, device_id, m),
    decreases n - m,
{
    if m < n {
        lemma_tensor_fault_stays(layers, key, device_id, m, n - 1);
    }
}

/// The registered tensors of all contexts.
#[derive(Debug)]
pub struct CudaTensorRegistry {
    contexts: Vec<(String, ContextState)>,
}

impl CudaTensorRegistry {
    /// The contexts by key.
    pub closed spec fn contexts(self) -> Seq<(Seq<char>, ContextView)> {
        context_views(self.contexts@)
    }

    /// No two contexts have the same key.
    pub open spec fn wf(self) -> bool {
        unique_keys(self.contexts())
    }

    /// A registry without contexts.
    pub fn empty() -> (r: Self)
        ensures
            r.wf(),
            r.contexts() == Seq::<(Seq<char>, ContextView)>::empty(),
    {
        let r: CudaTensorRegistry = CudaTensorRegistry { contexts: Vec::new() };
        assert(r.contexts() =~= Seq::<(Seq<char>, ContextView)>::empty());
        r
    }

    fn find(&self, context_key: &str) -> (r: Option<usize>)
        requires
            self.wf(),
        ensures
            match r {
                Some(i) => {
                    &&& i < self.contexts@.len()
                    &&& is_entry(self.contexts(), context_key@, i as int)
                    &&& has_key(self.contexts(), context_key@)
                    &&& lookup(self.contexts(), context_key@) == Some(
                        self.contexts@[i as int].1@,
                    )
                },
                None => !has_key(self.contexts(), context_key@),
            },
    {
        match find_named(&self.contexts, context_key) {
            Some(i) => {
                proof {
                    assert(is_entry(named(self.contexts@), context_key@, i as int));
                    assert(is_entry(self.contexts(), context_key@, i as int));
                    lemma_place(self.contexts(), context_key@, i as int);
                }
                Some(i)
            },
            None => {
                assert forall|k: int| !is_entry(self.contexts(), context_key@, k) by {
                    if is_entry(self.contexts(), context_key@, k) {
                        assert(is_entry(named(self.contexts@), context_key@, k));
                    }
                }
                None
            },
        }
    }

    /// A context, where there is one of that key.
    pub fn context(&self, context_key: &str) -> (r: Option<&ContextState>)
        requires
            self.wf(),
        ensures
            match r {
                Some(c) => lookup(self.contexts(), context_key@) == Some(c@),
                None => lookup(self.contexts(), context_key@) is None,
            },
    {
        match self.find(context_key) {
            Some(i) => Some(&self.contexts[i].1),
            None => None,
        }
    }

    /// Refuses layers, before any tensor is made for them: where the context exists, and
    /// where a layer appears twice.
    pub fn check_layers(&self, context_key: &str, names: &[String]) -> (r: Result<(), String>)
        requires
            self.wf(),
        ensures
            match context_fault(
                self.contexts(),
                context_key@,
                names@.map_values(|s: String| s@),
            ) {
                Some(e) => r matches Err(m) && m@ == e,
                None => r is Ok,
            },
    {
        if self.find(context_key).is_some() {
            return Err(join3("context ", context_key, " is already registered"));
        }
        let ghost views = names@.map_values(|s: String| s@);
        let mut i: usize = 0;
        while i < names.len()
            invariant
                i <= names@.len(),
                views == names@.map_values(|s: String| s@),
                !has_key(self.contexts(), context_key@),
                first_repeat(views, i as int) is None,
            decreases names@.len() - i,
        {
            proof {
                lemma_repeat_stays(views, i + 1, views.len() as int);
            }
            let mut k: usize = 0;
            while k < i
                invariant
                    k <= i < names@.len(),
                    views == names@.map_values(|s: String| s@),
                    !has_key(self.contexts(), context_key@),
                    first_repeat(views, i as int) is None,
                    first_repeat(views, i + 1) is Some ==> first_repeat(views, views.len() as int)
                        == first_repeat(views, i + 1),
                    forall|q: int| 0 <= q < k ==> #[trigger] views[q] != views[i as int],
                decreases i - k,
            {
                assert(views[k as int] == names@[k as int]@);
                assert(views[i as int] == names@[i as int]@);
                if same_text(&names[k], &names[i]) {
                    assert(repeated(views, i as int));
                    return Err(
                        join2(
                            join3("layer ", &names[i], " appears more than once in context ").as_str(),
                            context_key,
                        ),
                    );
                }
                k += 1;
            }
            i += 1;
        }
        Ok(())
    }

    /// Registers a context with the tensors that were made for its layers. All of them are
    /// registered or none: where one could not be made, or is on another device, the
    /// registry stays as it is.
    pub fn register_layers(
        &mut self,
        context_key: &str,
        device_id: i32,
        layers: &Vec<LayerResult>,
    ) -> (r: Result<Vec<TensorMetadata>, String>)
        requires
            old(self).wf(),
        ensures
            final(self).wf(),
            ({
                let early = context_fault(old(self).contexts(), context_key@, layer_names(layers@));
                let late = first_tensor_fault(
                    layers@,
                    context_key@,
                    device_id,
                    layers@.len() as int,
                );
                match r {
                    Err(m) => {
                        &&& *final(self) == *old(self)
                        &&& if early is Some {
                            early == Some(m@)
                        } else {
                            late == Some(m@)
                        }
                    },
                    Ok(metadatas) => {
                        &&& early is None
                        &&& late is None
                        &&& metadatas@ == layer_tensors(layers@).map_values(
                            |t: (Seq<char>, LayerTensor)| t.1.metadata,
                        )
                        &&& as_map(final(self).contexts()) == as_map(old(self).contexts()).insert(
                            context_key@,
                            (ContextView { device_id, tensors: layer_tensors(layers@) }),
                        )
                    },
                }
            }),
    {
        let mut names: Vec<String> = Vec::new();
        let ghost wanted = layer_names(layers@);
        let mut i: usize = 0;
        while i < layers.len()
            invariant
                i <= layers@.len(),
                wanted == layer_names(layers@),
                names@.len() == i,
                forall|k: int| 0 <= k < i ==> (#[trigger] names@[k])@ == wanted[k],
            decreases layers@.len() - i,
        {
            names.push(layers[i].layer_name.clone());
            i += 1;
        }
        assert(names@.map_values(|s: String| s@) =~= wanted);
        match self.check_layers(context_key, names.as_slice()) {
            Ok(_) => {},
            Err(m) => {
                return Err(m);
            },
        }
        let mut context: ContextState = ContextState::new(device_id);
        let mut metadatas: Vec<TensorMetadata> = Vec::new();
        let ghost tensors = layer_tensors(layers@);
        let ghost n = layers@.len() as int;
        let mut j: usize = 0;
        assert(named(context.tensors@) =~= tensors.take(0));
        while j < layers.len()
            invariant
                j <= layers@.len(),
                n == layers@.len(),
                old(self).wf(),
                *self == *old(self),
                context.device_id == device_id,
                tensors == layer_tensors(layers@),
                context_fault(old(self).contexts(), context_key@, layer_names(layers@)) is None,
                first_tensor_fault(layers@, context_key@, device_id, j as int) is None,
                named(context.tensors@) == tensors.take(j as int),
                metadatas@.len() == j,
                forall|k: int| 0 <= k < j ==> #[trigger] metadatas@[k] == tensors[k].1.metadata,
            decreases layers@.len() - j,
        {
            proof {
                lemma_tensor_fault_stays(layers@, context_key@, device_id, j + 1, n);
            }
            let tensor: LayerTensor = match &layers[j].tensor {
                Ok(t) => *t,
                Err(m) => {
                    return Err(m.clone());
                },
            };
            if tensor.metadata.device_id != device_id {
                let mut m: String = join3("context ", context_key, " is pinned to device ");
                push_signed(&mut m, device_id as i64);
                m.append(" but got ");
                push_signed(&mut m, tensor.metadata.device_id as i64);
                return Err(m);
            }
            let ghost shown = named(context.tensors@);
            let name: String = layers[j].layer_name.clone();
            let ghost entry = (name@, tensor);
            context.tensors.push((name, tensor));
            metadatas.push(tensor.metadata);
            j += 1;
            assert(named(context.tensors@) =~= shown.push(entry));
            assert(tensors[j - 1] == entry);
            assert(tensors.take(j as int) =~= tensors.take(j - 1).push(entry));
        }
        proof {
            assert(tensors.take(n) =~= tensors);
            assert(metadatas@ =~= tensors.map_values(
                |t: (Seq<char>, LayerTensor)| t.1.metadata,
            ));
        }
        let ghost before = self.contexts();
        let ghost value = context@;
        assert(value == (ContextView { device_id, tensors }));
        self.contexts.push((String::from_str(context_key), context));
        proof {
            lemma_push(before, context_key@, value);
            assert(self.contexts() =~= before.push((context_key@, value)));
        }
        Ok(metadatas)
    }

    /// Removes a context, and returns the handles of its tensors, which are to be given up.
    pub fn drop_context(&mut self, context_key: &str) -> (r: Vec<u64>)
        requires
            old(self).wf(),
        ensures
            final(self).wf(),
            as_map(final(self).contexts()) == as_map(old(self).contexts()).remove(context_key@),
            r@ == match lookup(old(self).contexts(), context_key@) {
                Some(c) => handles_of(c),
                None => Seq::empty(),
            },
    {
        let ghost before = self.contexts();
        match self.find(context_key) {
            Some(i) => {
                let (_, context): (String, ContextState) = self.contexts.remove(i);
                proof {
                    lemma_remove(before, i as int);
                    assert(self.contexts() =~= before.remove(i as int));
                }
                context_handles(&context)
            },
            None => {
                assert(as_map(before) =~= as_map(before).remove(context_key@));
                Vec::new()
            },
        }
    }

    fn drop_under(&mut self, prefix: &str) -> (r: Vec<u64>)
        requires
            old(self).wf(),
        ensures
            final(self).wf(),
            final(self).contexts() == others(old(self).contexts(), prefix@),
            r@ == handles_under(old(self).contexts(), prefix@),
    {
        let ghost before = self.contexts();
        let mut all: Vec<(String, ContextState)> = Vec::new();
        std::mem::swap(&mut all, &mut self.contexts);
        let ghost was = all@;
        let mut handles: Vec<u64> = Vec::new();
        let mut kept: Vec<(String, ContextState)> = Vec::new();
        proof {
            assert(before == context_views(was));
            assert(context_views(kept@) =~= others(before.take(0), prefix@));
            assert(handles@ =~= handles_under(before.take(0), prefix@));
        }
        for entry in it: all
            invariant
                it.seq() == was,
                before == context_views(was),
                context_views(kept@) == others(before.take(it.index()), prefix@),
                handles@ == handles_under(before.take(it.index()), prefix@),
        {
            let ghost k = it.index();
            let ghost shown = context_views(kept@);
            let ghost view = (entry.0@, entry.1@);
            proof {
                assert(before.take(k + 1).drop_last() =~= before.take(k));
                assert(before.take(k + 1).last() == view);
            }
            if starts_with(entry.0.as_str(), prefix) {
                let mut own: Vec<u64> = context_handles(&entry.1);
                handles.append(&mut own);
            } else {
                kept.push(entry);
                assert(context_views(kept@) =~= shown.push(view));
            }
        }
        proof {
            assert(before.take(before.len() as int) =~= before);
            lemma_others(before, prefix@);
        }
        self.contexts = kept;
        handles
    }

    /// Removes the contexts of an instance, and returns the handles of their tensors, which
    /// are to be given up.
    pub fn drop_instance(&mut self, instance_id: &str) -> (r: Vec<u64>)
        requires
            old(self).wf(),
        ensures
            final(self).wf(),
            final(self).contexts() == others(old(self).contexts(), instance_id@ + ":"@),
            r@ == handles_under(old(self).contexts(), instance_id@ + ":"@),
    {
        let prefix: String = join2(instance_id, ":");
        self.drop_under(prefix.as_str())
    }

    /// Removes all contexts, and returns the handles of their tensors, which are to be given
    /// up.
    pub fn clear_and_count(&mut self) -> (r: Vec<u64>)
        requires
            old(self).wf(),
        ensures
            final(self).wf(),
            final(self).contexts().len() == 0,
            r@ == handles_under(old(self).contexts(), Seq::empty()),
    {
        let handles: Vec<u64> = self.drop_under("");
        proof {
            reveal_strlit("");
            assert(""@ =~= Seq::<char>::empty());
            lemma_nothing_else(old(self).contexts());
        }
        handles
    }
}

/// The handles of a context's tensors.
fn context_handles(context: &ContextState) -> (r: Vec<u64>)
    ensures
        r@ == handles_of(context@),
{
    let mut r: Vec<u64> = Vec::new();
    let mut i: usize = 0;
    while i < context.tensors.len()
        invariant
            i <= context.tensors@.len(),
            r@.len() == i,
            forall|k: int| 0 <= k < i ==> #[trigger] r@[k] == context.tensors@[k].1.handle,
        decreases context.tensors@.len() - i,
    {
        r.push(context.tensors[i].1.handle);
        i += 1;
    }
    assert(r@ =~= handles_of(context@));
    r
}

proof fn lemma_others(s: Seq<(Seq<char>, ContextView)>, prefix: Seq<char>)
    requires
        unique_keys(s),
    ensures
        unique_keys(others(s, prefix)),
        forall|k: int|
            0 <= k < others(s, prefix).len() ==> s.contains(#[trigger] others(s, prefix)[k]),
    decreases s.len(),
{
    if s.len() > 0 {
        let front = s.drop_last();
        let kept = others(front, prefix);
        assert forall|i: int, j: int|
            0 <= i < front.len() && 0 <= j < front.len() && (#[trigger] front[i]).0 == (#[trigger]
            front[j]).0 implies i == j by {
            assert(s[i].0 == s[j].0);
        }
        lemma_others(front, prefix);
        assert forall|k: int| 0 <= k < kept.len() implies s.contains(#[trigger] kept[k]) by {
            let i = choose|i: int| 0 <= i < front.len() && front[i] == kept[k];
            assert(s[i] == kept[k]);
        }
        if !has_prefix(s.last().0, prefix) {
            assert(s[s.len() - 1] == s.last());
            if has_key(kept, s.last().0) {
                let k = choose|k: int| is_entry(kept, s.last().0, k);
                let i = choose|i: int| 0 <= i < front.len() && front[i] == kept[k];
                assert(s[i].0 == s[s.len() - 1].0);
            }
            lemma_push(kept, s.last().0, s.last().1);
        }
    }
}

proof fn lemma_nothing_else(s: Seq<(Seq<char>, ContextView)>)
    ensures
        others(s, Seq::empty()).len() == 0,
    decreases s.len(),
{
    if s.len() > 0 {
        lemma_nothing_else(s.drop_last());
        assert(s.last().0.take(0) =~= Seq::<char>::empty());
    }
}

/// A context is left exactly if its key does not begin with the prefix.
pub proof fn law_only_matching_contexts_go(
    s: Seq<(Seq<char>, ContextView)>,
    prefix: Seq<char>,
    k: int,
)
    requires
        0 <= k < s.len(),
        unique_keys(s),
    ensures
        others(s, prefix).contains(s[k]) <==> !has_prefix(s[k].0, prefix),
    decreases s.len(),
{
    let front = s.drop_last();
    let kept = others(front, prefix);
    let all = others(s, prefix);
    assert forall|i: int, j: int|
        0 <= i < front.len() && 0 <= j < front.len() && (#[trigger] front[i]).0 == (#[trigger]
        front[j]).0 implies i == j by {
        assert(s[i].0 == s[j].0);
    }
    lemma_others(front, prefix);
    if k < s.len() - 1 {
        law_only_matching_contexts_go(front, prefix, k);
        assert(front[k] == s[k]);
        if !has_prefix(s.last().0, prefix) {
            if kept.contains(s[k]) {
                let i = choose|i: int| 0 <= i < kept.len() && kept[i] == s[k];
                assert(all[i] == s[k]);
            }
            if all.contains(s[k]) {
                let i = choose|i: int| 0 <= i < all.len() && all[i] == s[k];
                if i == kept.len() {
                    assert(s[k].0 == s[s.len() - 1].0);
                } else {
                    assert(kept[i] == s[k]);
                }
            }
        }
    } else {
        if !has_prefix(s.last().0, prefix) {
            assert(all[all.len() - 1] == s[k]);
        } else if all.contains(s[k]) {
            let i = choose|i: int| 0 <= i < all.len() && all[i] == s[k];
            let j = choose|j: int| 0 <= j < front.len() && front[j] == kept[i];
            assert(s[j].0 == s[k].0);
        }
    }
}

/// Contexts that go and contexts that stay are told apart one by one: those whose names begin with
/// the prefix go, with the handles of all their tensors, and the others stay in their order.
pub proof fn law_contexts_go_by_their_names(
    a: Seq<(Seq<char>, ContextView)>,
    e: (Seq<char>, ContextView),
    prefix: Seq<char>,
)
    ensures
        others(Seq::empty(), prefix).len() == 0,
        handles_under(Seq::empty(), prefix).len() == 0,
        ({
            let goes = e.0.len() >= prefix.len() && e.0.take(prefix.len() as int) == prefix;
            &&& others(a.push(e), prefix) == (if goes {
                others(a, prefix)
            } else {
                others(a, prefix).push(e)
            })
            &&& handles_under(a.push(e), prefix) == handles_under(a, prefix) + (if goes {
                Seq::new(e.1.tensors.len(), |i: int| e.1.tensors[i].1.handle)
            } else {
                Seq::empty()
            })
        }),
{
    assert(a.push(e).drop_last() =~= a);
    assert(handles_of(e.1) =~= Seq::new(e.1.tensors.len(), |i: int| e.1.tensors[i].1.handle));
    assert(handles_under(a, prefix) + Seq::<u64>::empty() =~= handles_under(a, prefix));
}

/// A context can be registered exactly if there is none of its name, no layer has a name twice,
/// and every tensor is there and on the device of the context.
pub proof fn law_contexts_are_refused_for_a_reason(
    contexts: Seq<(Seq<char>, ContextView)>,
    key: Seq<char>,
    names: Seq<Seq<char>>,
    layers: Seq<LayerResult>,
    device_id: i32,
    n: int,
)
    requires
        0 <= n <= layers.len(),
    ensures
        context_fault(contexts, key, names) is None <==> !has_key(contexts, key)
            && names.no_duplicates(),
        first_tensor_fault(layers, key, device_id, n) is None <==> forall|i: int|
            0 <= i < n ==> ((#[trigger] layers[i]).tensor matches Ok(t) && t.metadata.device_id
                == device_id),
    decreases n,
{
    lemma_no_repeat(names, names.len() as int);
    if n > 0 {
        law_contexts_are_refused_for_a_reason(contexts, key, names, layers, device_id, n - 1);
    }
}

proof fn lemma_no_repeat(names: Seq<Seq<char>>, n: int)
    requires
        0 <= n <= names.len(),
    ensures
        first_repeat(names, n) is None <==> forall|i: int, j: int|
            0 <= i < j < n ==> #[trigger] names[i] != #[trigger] names[j],
    decreases n,
{
    if n > 0 {
        lemma_no_repeat(names, n - 1);
        if repeated(names, n - 1) {
            let k = choose|k: int| 0 <= k < n - 1 && #[trigger] names[k] == names[n - 1];
            assert(names[k] == names[n - 1]);
        } else {
            assert forall|i: int| 0 <= i < n - 1 implies #[trigger] names[i] != names[n - 1] by {}
        }
    }
}

/// Contexts and layers are shown whole and in order.
pub proof fn law_contexts_are_shown_whole(
    contexts: Seq<(String, ContextState)>,
    layers: Seq<LayerResult>,
    i: int,
)
    ensures
        context_views(contexts).len() == contexts.len(),
        0 <= i < contexts.len() ==> context_views(contexts)[i].0 == contexts[i].0@ && context_views(
            contexts,
        )[i].1.device_id == contexts[i].1.device_id && context_views(contexts)[i].1.tensors
            == named(contexts[i].1.tensors@),
        layer_names(layers).len() == layers.len(),
        0 <= i < layers.len() ==> layer_names(layers)[i] == layers[i].layer_name@,
        layer_tensors(layers).len() == layers.len(),
        0 <= i < layers.len() ==> layer_tensors(layers)[i].0 == layers[i].layer_name@ && (
        layers[i].tensor matches Ok(t) ==> layer_tensors(layers)[i].1 == t),
{
}

} // verus!
