use std::collections::BTreeMap;
use vstd::prelude::*;
use vstd::std_specs::cmp::OrdSpec;
use vstd::std_specs::iter::IteratorSpec;

verus! {

broadcast use {vstd::std_specs::btree::group_btree_axioms, vstd::laws_cmp::group_laws_cmp};

/// What a draw command draws.
#[derive(Debug, Clone, Copy, PartialEq, Eq, Structural)]
pub enum DrawCommandType {
    Sprite,
    Rect,
}

/// The title and size of the game window.
pub struct WindowConfig {
    pub title: String,
    pub width: u32,
    pub height: u32,
}

/// `keys` lists the members of `dom`, each once, in increasing order.
pub open spec fn sorted_keys_of(keys: Seq<i32>, dom: Set<i32>) -> bool {
    &&& forall|i: int, j: int| 0 <= i < j < keys.len() ==> keys[i] < keys[j]
    &&& keys.to_set() == dom
}

/// The layers named by `keys`, one after the other.
pub open spec fn concat_layers<C>(layers: Map<i32, Seq<C>>, keys: Seq<i32>) -> Seq<C>
    decreases keys.len(),
{
    if keys.len() == 0 {
        Seq::empty()
    } else {
        concat_layers(layers, keys.drop_last()) + layers[keys.last()]
    }
}

/// The layers after queuing `command` at the end of layer `z`.
pub open spec fn push_layer<C>(layers: Map<i32, Seq<C>>, command: C, z: i32) -> Map<i32, Seq<C>> {
    layers.insert(
        z,
        (if layers.contains_key(z) {
            layers[z]
        } else {
            Seq::empty()
        }).push(command),
    )
}

/// The layers after queuing each (command, z-index) pair of `draws`, in
/// order, onto `layers`.
pub open spec fn push_all<C>(layers: Map<i32, Seq<C>>, draws: Seq<(C, i32)>) -> Map<i32, Seq<C>>
    decreases draws.len(),
{
    if draws.len() == 0 {
        layers
    } else {
        push_layer(push_all(layers, draws.drop_last()), draws.last().0, draws.last().1)
    }
}

/// The z-indices that `draws` uses.
pub open spec fn draw_zs<C>(draws: Seq<(C, i32)>) -> Set<i32>
    decreases draws.len(),
{
    if draws.len() == 0 {
        Set::empty()
    } else {
        draw_zs(draws.drop_last()).insert(draws.last().1)
    }
}

/// The commands of `draws` drawn at z-index `z`, in call order.
pub open spec fn draws_at<C>(draws: Seq<(C, i32)>, z: i32) -> Seq<C>
    decreases draws.len(),
{
    if draws.len() == 0 {
        Seq::empty()
    } else {
        draws_at(draws.drop_last(), z) + (if draws.last().1 == z {
            seq![draws.last().0]
        } else {
            Seq::empty()
        })
    }
}

/// The commands of `draws` sorted stably by z-index: for each z-index of
/// `keys` in turn, the commands drawn at it, in call order.
pub open spec fn stable_by_z<C>(draws: Seq<(C, i32)>, keys: Seq<i32>) -> Seq<C>
    decreases keys.len(),
{
    if keys.len() == 0 {
        Seq::empty()
    } else {
        stable_by_z(draws, keys.drop_last()) + draws_at(draws, keys.last())
    }
}

/// Every layer of `layers` is empty, as a drain leaves them.
pub open spec fn all_layers_empty<C>(layers: Map<i32, Seq<C>>) -> bool {
    forall|z: i32| #[trigger] layers.contains_key(z) ==> layers[z] == Seq::<C>::empty()
}

/// Queuing `draws` onto layers that are all empty keeps those layers and
/// adds one per new z-index used; each layer then holds the commands drawn
/// at it, in call order.
pub proof fn lemma_push_all_layers<C>(start: Map<i32, Seq<C>>, draws: Seq<(C, i32)>)
    requires
        all_layers_empty(start),
    ensures
        push_all(start, draws).dom() == start.dom() + draw_zs(draws),
        forall|z: i32| #[trigger]
            push_all(start, draws).contains_key(z) ==> push_all(start, draws)[z] == draws_at(
                draws,
                z,
            ),
    decreases draws.len(),
{
    if draws.len() == 0 {
        assert(push_all(start, draws).dom() =~= start.dom() + draw_zs(draws));
    } else {
        let prev = push_all(start, draws.drop_last());
        lemma_push_all_layers(start, draws.drop_last());
        let (c, zc) = draws.last();
        assert(push_all(start, draws).dom() =~= start.dom() + draw_zs(draws));
        assert forall|z: i32| #[trigger]
            push_all(start, draws).contains_key(z) implies push_all(start, draws)[z]
            == draws_at(draws, z) by {
            if z == zc {
                if !prev.contains_key(z) {
                    lemma_draws_at_absent(draws.drop_last(), z);
                }
                assert(draws_at(draws, z) =~= draws_at(draws.drop_last(), z).push(c));
            } else {
                assert(draws_at(draws, z) =~= draws_at(draws.drop_last(), z));
            }
        }
    }
}

/// A z-index that `draws` never uses has no commands drawn at it.
pub proof fn lemma_draws_at_absent<C>(draws: Seq<(C, i32)>, z: i32)
    requires
        !draw_zs(draws).contains(z),
    ensures
        draws_at(draws, z) == Seq::<C>::empty(),
    decreases draws.len(),
{
    if draws.len() > 0 {
        lemma_draws_at_absent(draws.drop_last(), z);
        assert(draws_at(draws, z) =~= draws_at(draws.drop_last(), z));
    }
}

/// The drawing order of every frame: when `draws` are queued, in order,
/// onto a queue whose layers are all empty (a new queue, or one just
/// drained), draining it hands out every command once, sorted stably by
/// z-index (increasing z-index, call order within a z-index); z-indices
/// left over from earlier frames contribute nothing.
pub proof fn lemma_draw_order<C>(start: Map<i32, Seq<C>>, draws: Seq<(C, i32)>, keys: Seq<i32>)
    requires
        all_layers_empty(start),
        sorted_keys_of(keys, start.dom() + draw_zs(draws)),
    ensures
        sorted_keys_of(keys, push_all(start, draws).dom()),
        concat_layers(push_all(start, draws), keys) == stable_by_z(draws, keys),
{
    lemma_push_all_layers(start, draws);
    lemma_concat_draws(push_all(start, draws), draws, keys);
}

/// Concatenating layers that hold, at each z-index, the commands drawn at
/// it is concatenating the commands drawn at each z-index.
proof fn lemma_concat_draws<C>(layers: Map<i32, Seq<C>>, draws: Seq<(C, i32)>, keys: Seq<i32>)
    requires
        forall|i: int| 0 <= i < keys.len() ==> layers.contains_key(#[trigger] keys[i]),
        forall|z: i32| #[trigger] layers.contains_key(z) ==> layers[z] == draws_at(draws, z),
    ensures
        concat_layers(layers, keys) == stable_by_z(draws, keys),
    decreases keys.len(),
{
    if keys.len() > 0 {
        assert(layers.contains_key(keys[keys.len() - 1]));
        lemma_concat_draws(layers, draws, keys.drop_last());
    }
}

/// Once every layer is empty, draining hands out nothing.
pub proof fn lemma_empty_layers_draw_nothing<C>(layers: Map<i32, Seq<C>>, keys: Seq<i32>)
    requires
        forall|z: i32| #[trigger] layers.contains_key(z) ==> layers[z] == Seq::<C>::empty(),
        forall|i: int| 0 <= i < keys.len() ==> layers.contains_key(#[trigger] keys[i]),
    ensures
        concat_layers(layers, keys) == Seq::<C>::empty(),
    decreases keys.len(),
{
    if keys.len() > 0 {
        assert(layers.contains_key(keys[keys.len() - 1]));
        lemma_empty_layers_draw_nothing(layers, keys.drop_last());
    }
}

/// The commands queued for one frame, held in layers by z-index.
pub struct DrawQueue<C> {
    queue: BTreeMap<i32, Vec<C>>,
}

impl<C> DrawQueue<C> {
    /// The queued commands of each layer, in the order they were queued.
    pub closed spec fn layers(self) -> Map<i32, Seq<C>> {
        self.queue@.map_values(|v: Vec<C>| v@)
    }

    /// An empty queue.
    pub fn new() -> (r: Self)
        ensures
            r.layers() == Map::<i32, Seq<C>>::empty(),
    {
        let r = DrawQueue { queue: BTreeMap::new() };
        assert(r.layers() =~= Map::<i32, Seq<C>>::empty());
        r
    }

    /// Queues `command` at the end of layer `z_index`.
    pub fn push(&mut self, command: C, z_index: i32)
        ensures
            final(self).layers() == push_layer(old(self).layers(), command, z_index),
    {
        let mut layer = match self.queue.remove(&z_index) {
            Some(v) => v,
            None => Vec::new(),
        };
        layer.push(command);
        self.queue.insert(z_index, layer);
        assert(self.layers() =~= push_layer(old(self).layers(), command, z_index));
    }

    /// The z-indices of the layers, in increasing order.
    fn layer_keys(&self) -> (keys: Vec<i32>)
        ensures
            sorted_keys_of(keys@, self.layers().dom()),
    {
        let mut keys: Vec<i32> = Vec::new();
        for k in it: self.queue.keys()
            invariant
                keys@ == it.seq().take(it.index() as int).map_values(|r: &i32| *r),
        {
            keys.push(*k);
        }
        proof {
            let rem = vstd::std_specs::btree::spec_keys_iter(&self.queue).remaining();
            assert(keys@ =~= rem.map_values(|r: &i32| *r));
            assert(rem.unref() =~= keys@);
            assert(self.layers().dom() =~= self.queue@.dom());
            assert(keys@.to_set() == self.layers().dom());
            lemma_increasing_refs(rem);
        }
        keys
    }

    /// Hands out every queued command, layer by layer in increasing
    /// z-index and in queuing order within a layer, and leaves every layer
    /// empty.
    pub fn drain_ordered(&mut self) -> (out: Vec<C>)
        ensures
            exists|keys: Seq<i32>|
                sorted_keys_of(keys, old(self).layers().dom()) && out@ == concat_layers(
                    old(self).layers(),
                    keys,
                ),
            final(self).layers().dom() == old(self).layers().dom(),
            all_layers_empty(final(self).layers()),
    {
        let keys = self.layer_keys();
        let mut out: Vec<C> = Vec::new();
        let mut i: usize = 0;
        while i < keys.len()
            invariant
                i <= keys.len(),
                sorted_keys_of(keys@, old(self).layers().dom()),
                self.layers().dom() == old(self).layers().dom(),
                forall|j: int| 0 <= j < i ==> self.layers()[#[trigger] keys@[j]] == Seq::<C>::empty(),
                forall|j: int| i <= j < keys.len() ==> self.layers()[#[trigger] keys@[j]] == old(self).layers()[keys@[j]],
                out@ == concat_layers(old(self).layers(), keys@.take(i as int)),
            decreases keys.len() - i,
        {
            let z = keys[i];
            proof {
                assert(keys@.to_set().contains(z));
                assert(self.layers().contains_key(z));
            }
            let mut layer = match self.queue.remove(&z) {
                Some(v) => v,
                None => Vec::new(),
            };
            assert(layer@ == old(self).layers()[z]);
            out.append(&mut layer);
            self.queue.insert(z, layer);
            proof {
                assert(keys@.take(i + 1).drop_last() =~= keys@.take(i as int));
                assert(self.layers().dom() =~= old(self).layers().dom());
                assert forall|j: int| i + 1 <= j < keys.len() implies self.layers()[#[trigger] keys@[j]]
                    == old(self).layers()[keys@[j]] by {
                    assert(keys@[j] != z);
                }
            }
            i = i + 1;
        }
        proof {
            assert(keys@.take(keys.len() as int) =~= keys@);
            assert forall|z: i32| #[trigger] self.layers().contains_key(z) implies self.layers()[z]
                == Seq::<C>::empty() by {
                assert(keys@.to_set().contains(z));
                let j = choose|j: int| 0 <= j < keys.len() && keys@[j] == z;
            }
        }
        out
    }
}

/// The drawing order is fully determined: two increasing listings of the
/// same set of z-indices are the same listing, so `drain_ordered` has
/// exactly one possible result.
pub proof fn lemma_sorted_keys_unique(k1: Seq<i32>, k2: Seq<i32>, dom: Set<i32>)
    requires
        sorted_keys_of(k1, dom),
        sorted_keys_of(k2, dom),
    ensures
        k1 == k2,
    decreases k1.len(),
{
    if k1.len() == 0 {
        if k2.len() > 0 {
            assert(k2.to_set().contains(k2[0]));
            assert(!k1.to_set().contains(k2[0]));
        }
        assert(k1 =~= k2);
    } else if k2.len() == 0 {
        assert(k1.to_set().contains(k1[0]));
        assert(!k2.to_set().contains(k1[0]));
    } else {
        let m1 = k1.last();
        let m2 = k2.last();
        assert(k1.to_set().contains(m1));
        assert(k2.to_set().contains(m2));
        let j = choose|j: int| 0 <= j < k2.len() && k2[j] == m1;
        let i = choose|i: int| 0 <= i < k1.len() && k1[i] == m2;
        assert(m1 <= m2);
        assert(m2 <= m1);
        let rest = dom.remove(m1);
        assert forall|x: i32| k1.drop_last().to_set().contains(x) <==> rest.contains(x) by {
            if k1.drop_last().to_set().contains(x) {
                let a = choose|a: int| 0 <= a < k1.drop_last().len() && k1.drop_last()[a] == x;
                assert(k1[a] == x);
                assert(k1.to_set().contains(x));
            }
            if rest.contains(x) {
                assert(k1.to_set().contains(x));
                let a = choose|a: int| 0 <= a < k1.len() && k1[a] == x;
                assert(a != k1.len() - 1);
                assert(k1.drop_last()[a] == x);
            }
        }
        assert forall|x: i32| k2.drop_last().to_set().contains(x) <==> rest.contains(x) by {
            if k2.drop_last().to_set().contains(x) {
                let a = choose|a: int| 0 <= a < k2.drop_last().len() && k2.drop_last()[a] == x;
                assert(k2[a] == x);
                assert(k2.to_set().contains(x));
            }
            if rest.contains(x) {
                assert(k2.to_set().contains(x));
                let a = choose|a: int| 0 <= a < k2.len() && k2[a] == x;
                assert(a != k2.len() - 1);
                assert(k2.drop_last()[a] == x);
            }
        }
        assert(k1.drop_last().to_set() =~= rest);
        assert(k2.drop_last().to_set() =~= rest);
        lemma_sorted_keys_unique(k1.drop_last(), k2.drop_last(), rest);
        assert(k1 =~= k2.drop_last().push(m2));
        assert(k2 =~= k2.drop_last().push(m2));
    }
}

/// A sequence of references that a B-tree yields in increasing order
/// refers to strictly increasing integers.
proof fn lemma_increasing_refs(s: Seq<&i32>)
    requires
        vstd::std_specs::btree::increasing_seq(s),
    ensures
        forall|i: int, j: int| 0 <= i < j < s.len() ==> *s[i] < *s[j],
{
    assert(vstd::laws_cmp::obeys_cmp::<i32>());
    assert(vstd::laws_cmp::obeys_cmp::<&i32>());
    assert forall|i: int, j: int| 0 <= i < j < s.len() implies *s[i] < *s[j] by {
        assert((&s[i]).cmp_spec(&&s[j]) is Less);
    }
}

} // verus!
