//! The light manager: which objects are lights, which light lights the other
//! objects, where the light's uniform buffer goes and when an object's shader
//! is rewritten.
//!
//! The caller walks the object storage; for each object it asks
//! [`LightManager::plan_object`] what to do, does the GPU work, and reports
//! back through [`LightManager::set_object_as_light`] and
//! [`LightManager::mark_affected`].

use vstd::prelude::*;
use crate::order::{compare_names, name_lt, strictly_sorted, lemma_name_order, NameOrder};

verus! {

/// A light's name and its record, as the contracts see them.
pub type LightEntry<L> = (Seq<char>, L);

/// The names of a sequence of entries.
pub open spec fn entry_names<L>(entries: Seq<LightEntry<L>>) -> Seq<Seq<char>> {
    entries.map_values(|e: LightEntry<L>| e.0)
}

/// The position of `name` in `names`, where it occurs.
pub open spec fn name_index(names: Seq<Seq<char>>, name: Seq<char>) -> int {
    choose|i: int| 0 <= i < names.len() && names[i] == name
}

/// The map from names to records that a sequence of entries stands for.
pub open spec fn entries_map<L>(entries: Seq<LightEntry<L>>) -> Map<Seq<char>, L> {
    Map::new(
        |k: Seq<char>| entry_names(entries).contains(k),
        |k: Seq<char>| entries[name_index(entry_names(entries), k)].1,
    )
}

/// `name` is the least name of the map's domain.
pub open spec fn is_least_name<L>(lights: Map<Seq<char>, L>, name: Seq<char>) -> bool {
    &&& lights.dom().contains(name)
    &&& forall|k: Seq<char>| lights.dom().contains(k) && k != name ==> name_lt(name, k)
}

/// The uniform buffer slot that receives the light's buffer.
#[derive(Clone, Copy, Debug, PartialEq, Eq, Structural)]
pub enum UniformSlot {
    /// The object has exactly two buffers: append the light buffer.
    Push,
    /// The object already has a light buffer at this index: replace it.
    Replace(usize),
}

/// Where the light buffer goes for an object with `count` uniform buffers.
pub open spec fn uniform_slot_spec(count: usize) -> UniformSlot {
    if count == 2 { UniformSlot::Push } else { UniformSlot::Replace(2) }
}

/// What to do with one object during an update.
pub enum ObjectPlan<'a, L> {
    /// The object is a light: store its current position and colour as the
    /// light's record.
    UpdateLight,
    /// The object is lit: tint it by the ambient colour, give it the
    /// uniform buffer built from `light`, put that buffer at `slot`, and,
    /// where `shader` is `Some`, install that shader source and then report
    /// the object with [`LightManager::mark_affected`].
    Shade { light: &'a L, slot: UniformSlot, shader: Option<String> },
}

/// Placeholder in the shader template for the camera uniform declaration.
pub open spec fn camera_struct_marker() -> Seq<char> {
    "//@CAMERASTRUCT"@
}

/// Placeholder in the shader template for the vertex position output.
pub open spec fn camera_out_marker() -> Seq<char> {
    "//@CAMERAOUT"@
}

/// The camera uniform declaration put in place of its placeholder.
pub open spec fn camera_struct_source() -> Seq<char> {
    "\nstruct CameraUniforms {\n    camera_matrix: mat4x4<f32>,\n};\n@group(1) @binding(0)\nvar<uniform> camera_uniform: CameraUniforms;"@
}

/// The position output of an object that the camera transforms.
pub open spec fn camera_out_with_camera() -> Seq<char> {
    "out.position = camera_uniform.camera_matrix * (transform_uniform.transform_matrix * vec4<f32>(input.position, 1.0));"@
}

/// The position output of an object that the camera does not transform.
pub open spec fn camera_out_without_camera() -> Seq<char> {
    "out.position = transform_uniform.transform_matrix * vec4<f32>(input.position, 1.0);"@
}

/// `s` with every occurrence of the non-empty `from`, scanned from the left
/// without overlaps, replaced by `to`.
pub open spec fn replace_all(s: Seq<char>, from: Seq<char>, to: Seq<char>) -> Seq<char>
    decreases s.len(),
{
    if from.len() == 0 || s.len() < from.len() {
        s
    } else if s.take(from.len() as int) == from {
        to + replace_all(s.skip(from.len() as int), from, to)
    } else {
        seq![s[0]] + replace_all(s.drop_first(), from, to)
    }
}

/// The light shader for an object: the template with the camera
/// placeholders filled in for an object with or without camera effect.
pub open spec fn light_shader(template: Seq<char>, camera_effect: bool) -> Seq<char> {
    if camera_effect {
        replace_all(
            replace_all(template, camera_struct_marker(), camera_struct_source()),
            camera_out_marker(),
            camera_out_with_camera(),
        )
    } else {
        replace_all(template, camera_out_marker(), camera_out_without_camera())
    }
}

/// `str::replace` of std: every non-overlapping occurrence of `from`,
/// leftmost first, is replaced by `to`.
#[verifier::external_body]
fn str_replace(s: &str, from: &str, to: &str) -> (res: String)
    requires
        from@.len() > 0,
    ensures
        res@ == replace_all(s@, from@, to@),
{
    s.replace(from, to)
}

/// Builds the light shader source for an object from the shader template.
pub fn light_shader_source(template: &str, camera_effect: bool) -> (source: String)
    ensures
        source@ == light_shader(template@, camera_effect),
{
    let out_marker = "//@CAMERAOUT";
    proof {
        reveal_strlit("//@CAMERAOUT");
    }
    if camera_effect {
        let struct_marker = "//@CAMERASTRUCT";
        proof {
            reveal_strlit("//@CAMERASTRUCT");
        }
        let with_struct = str_replace(
            template,
            struct_marker,
            "\nstruct CameraUniforms {\n    camera_matrix: mat4x4<f32>,\n};\n@group(1) @binding(0)\nvar<uniform> camera_uniform: CameraUniforms;",
        );
        str_replace(
            with_struct.as_str(),
            out_marker,
            "out.position = camera_uniform.camera_matrix * (transform_uniform.transform_matrix * vec4<f32>(input.position, 1.0));",
        )
    } else {
        str_replace(
            template,
            out_marker,
            "out.position = transform_uniform.transform_matrix * vec4<f32>(input.position, 1.0);",
        )
    }
}

/// Where the light buffer goes for an object with `count` uniform buffers
/// (the transformation and colour buffers come first).
pub fn uniform_slot(count: usize) -> (slot: UniformSlot)
    requires
        count >= 2,
    ensures
        slot == uniform_slot_spec(count),
{
    if count == 2 {
        UniformSlot::Push
    } else {
        UniformSlot::Replace(2)
    }
}

/// In sorted entries, the map gives each entry's name that entry's record.
pub proof fn lemma_entries_map_at<L>(entries: Seq<LightEntry<L>>, i: int)
    requires
        strictly_sorted(entry_names(entries)),
        0 <= i < entries.len(),
    ensures
        entries_map(entries).dom().contains(entries[i].0),
        entries_map(entries)[entries[i].0] == entries[i].1,
{
    let names = entry_names(entries);
    assert(names[i] == entries[i].0);
    assert(names.contains(entries[i].0));
    let j = name_index(names, entries[i].0);
    lemma_name_order(names[i], names[i], names[i]);
    if j < i {
        assert(name_lt(names[j], names[i]));
    } else if i < j {
        assert(name_lt(names[i], names[j]));
    }
}

/// A name is in the map of some entries exactly when it is one of their names.
pub proof fn lemma_entries_map_dom<L>(entries: Seq<LightEntry<L>>, k: Seq<char>)
    ensures
        entries_map(entries).dom().contains(k) <==> exists|i: int|
            0 <= i < entries.len() && entries[i].0 == k,
{
    let names = entry_names(entries);
    if entries_map(entries).dom().contains(k) {
        let i = choose|i: int| 0 <= i < names.len() && names[i] == k;
        assert(entries[i].0 == k);
    }
    if exists|i: int| 0 <= i < entries.len() && entries[i].0 == k {
        let i = choose|i: int| 0 <= i < entries.len() && entries[i].0 == k;
        assert(names[i] == k);
    }
}

/// Inserting a new name at its place in sorted entries keeps them sorted
/// and adds the name to their map.
pub proof fn lemma_insert_entry<L>(e: Seq<LightEntry<L>>, p: int, k: Seq<char>, r: L)
    requires
        strictly_sorted(entry_names(e)),
        0 <= p <= e.len(),
        forall|j: int| 0 <= j < p ==> name_lt(#[trigger] e[j].0, k),
        p < e.len() ==> name_lt(k, e[p].0),
    ensures
        strictly_sorted(entry_names(e.insert(p, (k, r)))),
        entries_map(e.insert(p, (k, r))) == entries_map(e).insert(k, r),
{
    let e2 = e.insert(p, (k, r));
    let names = entry_names(e);
    let names2 = entry_names(e2);
    assert forall|i: int, j: int| 0 <= i < j < names2.len() implies name_lt(
        #[trigger] names2[i],
        #[trigger] names2[j],
    ) by {
        assert(names2[i] == e2[i].0);
        assert(names2[j] == e2[j].0);
        if j < p {
            assert(names[i] == e[i].0 && names[j] == e[j].0);
        } else if j == p {
        } else if i < p {
            assert(names[i] == e[i].0 && names[j - 1] == e[j - 1].0);
        } else if i == p {
            if j - 1 > p {
                assert(names[p] == e[p].0 && names[j - 1] == e[j - 1].0);
                lemma_name_order(k, e[p].0, e[j - 1].0);
            }
        } else {
            assert(names[i - 1] == e[i - 1].0 && names[j - 1] == e[j - 1].0);
        }
    }
    let m = entries_map(e).insert(k, r);
    let m2 = entries_map(e2);
    assert forall|x: Seq<char>| #[trigger] m2.dom().contains(x) <==> m.dom().contains(x) by {
        lemma_entries_map_dom(e, x);
        lemma_entries_map_dom(e2, x);
        if m.dom().contains(x) && x != k {
            let i = choose|i: int| 0 <= i < e.len() && e[i].0 == x;
            if i < p {
                assert(e2[i].0 == x);
            } else {
                assert(e2[i + 1].0 == x);
            }
        }
        if x == k {
            assert(e2[p].0 == x);
        }
        if m2.dom().contains(x) && x != k {
            let i = choose|i: int| 0 <= i < e2.len() && e2[i].0 == x;
            if i < p {
                assert(e[i].0 == x);
            } else if i > p {
                assert(e[i - 1].0 == x);
            }
        }
    }
    assert forall|x: Seq<char>| #[trigger] m2.dom().contains(x) implies m2[x] == m[x] by {
        lemma_entries_map_dom(e, x);
        lemma_entries_map_dom(e2, x);
        if x == k {
            lemma_entries_map_at(e2, p);
        } else {
            let i = choose|i: int| 0 <= i < e.len() && e[i].0 == x;
            lemma_entries_map_at(e, i);
            if i < p {
                lemma_entries_map_at(e2, i);
            } else {
                lemma_entries_map_at(e2, i + 1);
            }
        }
    }
    assert(m2 =~= m);
}

/// Giving an existing name a new record keeps the entries sorted and
/// updates the name in their map.
pub proof fn lemma_replace_entry<L>(e: Seq<LightEntry<L>>, p: int, r: L)
    requires
        strictly_sorted(entry_names(e)),
        0 <= p < e.len(),
    ensures
        strictly_sorted(entry_names(e.update(p, (e[p].0, r)))),
        entries_map(e.update(p, (e[p].0, r))) == entries_map(e).insert(e[p].0, r),
{
    let k = e[p].0;
    let e2 = e.update(p, (k, r));
    assert(entry_names(e2) =~= entry_names(e));
    let m = entries_map(e).insert(k, r);
    let m2 = entries_map(e2);
    assert forall|x: Seq<char>| #[trigger] m2.dom().contains(x) <==> m.dom().contains(x) by {
        lemma_entries_map_dom(e, x);
        lemma_entries_map_dom(e2, x);
        if m.dom().contains(x) && x != k {
            let i = choose|i: int| 0 <= i < e.len() && e[i].0 == x;
            assert(e2[i].0 == x);
        }
        if m2.dom().contains(x) {
            let i = choose|i: int| 0 <= i < e2.len() && e2[i].0 == x;
            assert(e[i].0 == x);
        }
    }
    assert forall|x: Seq<char>| #[trigger] m2.dom().contains(x) implies m2[x] == m[x] by {
        lemma_entries_map_dom(e2, x);
        let i = choose|i: int| 0 <= i < e2.len() && e2[i].0 == x;
        lemma_entries_map_at(e2, i);
        if i != p {
            lemma_entries_map_at(e, i);
            let names = entry_names(e);
            assert(names[i] == e[i].0 && names[p] == e[p].0);
            lemma_name_order(e[i].0, e[i].0, e[i].0);
            if i < p {
                assert(name_lt(names[i], names[p]));
            } else {
                assert(name_lt(names[p], names[i]));
            }
        }
    }
    assert(m2 =~= m);
}

/// The affected list after `name` is reported with
/// [`LightManager::mark_affected`]: appended unless already listed.
pub open spec fn mark_step(affected: Seq<Seq<char>>, name: Seq<char>) -> Seq<Seq<char>> {
    if affected.contains(name) {
        affected
    } else {
        affected.push(name)
    }
}

/// Whether an update step gives the object `name` the light shader:
/// exactly when it is no light and not yet affected (the `shader` of
/// [`LightManager::plan_object`]).
pub open spec fn shader_given(affected: Seq<Seq<char>>, lights: Set<Seq<char>>, name: Seq<char>) -> bool {
    !lights.contains(name) && !affected.contains(name)
}

/// The affected list after an update that visits the objects `names` in
/// this order, while the light names are `lights` (an update only refreshes
/// existing lights, so they stay the same throughout). Each step is what
/// [`LightManager::plan_object`] and [`LightManager::mark_affected`] do: a
/// light is left alone, an object given the shader is appended, and an
/// object already listed gets no shader and stays listed once.
pub open spec fn affected_after_update(
    affected: Seq<Seq<char>>,
    lights: Set<Seq<char>>,
    names: Seq<Seq<char>>,
) -> Seq<Seq<char>>
    decreases names.len(),
{
    if names.len() == 0 {
        affected
    } else {
        let prev = affected_after_update(affected, lights, names.drop_last());
        if lights.contains(names.last()) {
            prev
        } else {
            mark_step(prev, names.last())
        }
    }
}

/// `p` is the place of the first occurrence of `name` in `names`.
pub open spec fn first_at(names: Seq<Seq<char>>, name: Seq<char>, p: int) -> bool {
    &&& 0 <= p < names.len()
    &&& names[p] == name
    &&& forall|r: int| 0 <= r < p ==> names[r] != name
}

/// Keeps which objects are lights, with a record (position and colour) per
/// light, and which objects already carry the light shader. `A` is the
/// ambient setting (colour and strength) that the caller tints with.
pub struct LightManager<A, L> {
    ambient: A,
    light_objects: Vec<(String, L)>,
    affected_objects: Vec<String>,
}

impl<A, L> LightManager<A, L> {
    /// The ambient setting.
    pub closed spec fn ambient_setting(&self) -> A {
        self.ambient
    }

    /// The lights in name order, with their records.
    pub closed spec fn light_entries(&self) -> Seq<LightEntry<L>> {
        self.light_objects@.map_values(|e: (String, L)| (e.0@, e.1))
    }

    /// The names of the lights, in name order.
    pub open spec fn light_names(&self) -> Seq<Seq<char>> {
        entry_names(self.light_entries())
    }

    /// The lights: each light's name mapped to its record.
    pub open spec fn lights(&self) -> Map<Seq<char>, L> {
        entries_map(self.light_entries())
    }

    /// The objects that already carry the light shader, in the order in
    /// which they got it.
    pub closed spec fn affected(&self) -> Seq<Seq<char>> {
        self.affected_objects@.map_values(|s: String| s@)
    }

    /// The manager's invariant: the lights are kept in strictly increasing
    /// name order (so each name once), and no object is listed twice as
    /// affected.
    pub open spec fn wf(&self) -> bool {
        &&& strictly_sorted(self.light_names())
        &&& self.affected().no_duplicates()
    }

    /// A manager with no lights and no affected objects.
    pub fn new(ambient: A) -> (manager: Self)
        ensures
            manager.wf(),
            manager.ambient_setting() == ambient,
            manager.lights() == Map::<Seq<char>, L>::empty(),
            manager.light_names() == Seq::<Seq<char>>::empty(),
            manager.affected() == Seq::<Seq<char>>::empty(),
    {
        let manager = LightManager { ambient, light_objects: Vec::new(), affected_objects: Vec::new() };
        proof {
            assert(manager.light_entries() =~= Seq::empty());
            assert(manager.light_names() =~= Seq::empty());
            assert(manager.affected() =~= Seq::empty());
            assert(manager.lights() =~= Map::empty());
        }
        manager
    }

    /// The ambient setting.
    pub fn ambient(&self) -> (ambient: &A)
        ensures
            *ambient == self.ambient_setting(),
    {
        &self.ambient
    }

    /// Replaces the ambient setting.
    pub fn set_ambient(&mut self, ambient: A)
        ensures
            final(self).ambient_setting() == ambient,
            final(self).light_entries() == old(self).light_entries(),
            final(self).affected() == old(self).affected(),
    {
        self.ambient = ambient;
    }

    /// Makes `object` a light with `record` as its record (position and
    /// colour), or gives an existing light that record.
    pub fn set_object_as_light(&mut self, object: String, record: L)
        requires
            old(self).wf(),
        ensures
            final(self).wf(),
            final(self).lights() == old(self).lights().insert(object@, record),
            final(self).affected() == old(self).affected(),
            final(self).ambient_setting() == old(self).ambient_setting(),
    {
        let ghost e = self.light_entries();
        let n = self.light_objects.len();
        let mut i: usize = 0;
        while i < n
            invariant
                n == self.light_objects@.len(),
                self.light_entries() == e,
                *self == *old(self),
                self.wf(),
                i <= n,
                forall|j: int| 0 <= j < i ==> name_lt(#[trigger] e[j].0, object@),
            decreases n - i,
        {
            let order = compare_names(self.light_objects[i].0.as_str(), object.as_str());
            assert(e[i as int].0 == self.light_objects@[i as int].0@);
            match order {
                NameOrder::Equal => {
                    proof {
                        lemma_replace_entry(e, i as int, record);
                    }
                    self.light_objects[i] = (object, record);
                    assert(self.light_entries() =~= e.update(i as int, (e[i as int].0, record)));
                    return;
                },
                NameOrder::Greater => {
                    proof {
                        lemma_insert_entry(e, i as int, object@, record);
                    }
                    let ghost key = object@;
                    self.light_objects.insert(i, (object, record));
                    assert(self.light_entries() =~= e.insert(i as int, (key, record)));
                    return;
                },
                NameOrder::Less => {
                    i = i + 1;
                },
            }
        }
        proof {
            lemma_insert_entry(e, n as int, object@, record);
        }
        let ghost key = object@;
        self.light_objects.push((object, record));
        assert(self.light_entries() =~= e.insert(n as int, (key, record)));
    }

    /// Whether `name` is a light.
    pub fn is_light(&self, name: &str) -> (light: bool)
        ensures
            light == self.lights().dom().contains(name@),
    {
        let n = self.light_objects.len();
        let mut i: usize = 0;
        while i < n
            invariant
                n == self.light_objects@.len(),
                i <= n,
                forall|j: int| 0 <= j < i ==> (#[trigger] self.light_entries()[j]).0 != name@,
            decreases n - i,
        {
            assert(self.light_entries()[i as int].0 == self.light_objects@[i as int].0@);
            if compare_names(self.light_objects[i].0.as_str(), name) == NameOrder::Equal {
                proof {
                    lemma_entries_map_dom(self.light_entries(), name@);
                }
                return true;
            }
            i = i + 1;
        }
        proof {
            lemma_entries_map_dom(self.light_entries(), name@);
        }
        false
    }

    /// The record of the light with the least name, which lights all other
    /// objects; `None` when there is no light.
    pub fn primary_light(&self) -> (light: Option<&L>)
        requires
            self.wf(),
        ensures
            light is None <==> (forall|k: Seq<char>| !self.lights().dom().contains(k)),
            light matches Some(r) ==> exists|k: Seq<char>|
                is_least_name(self.lights(), k) && *r == self.lights()[k],
    {
        let e = Ghost(self.light_entries());
        if self.light_objects.len() == 0 {
            proof {
                assert forall|k: Seq<char>| !self.lights().dom().contains(k) by {
                    lemma_entries_map_dom(e@, k);
                }
            }
            None
        } else {
            proof {
                lemma_entries_map_at(e@, 0);
                let k = e@[0].0;
                let names = entry_names(e@);
                assert forall|k2: Seq<char>| self.lights().dom().contains(k2) && k2 != k implies name_lt(k, k2) by {
                    lemma_entries_map_dom(e@, k2);
                    let i = choose|i: int| 0 <= i < e@.len() && e@[i].0 == k2;
                    assert(names[0] == k && names[i] == k2);
                }
                assert(is_least_name(self.lights(), k));
            }
            Some(&self.light_objects[0].1)
        }
    }

    /// Whether `name` still needs the light shader.
    pub fn needs_shader(&self, name: &str) -> (needs: bool)
        ensures
            needs == !self.affected().contains(name@),
    {
        let n = self.affected_objects.len();
        let mut i: usize = 0;
        while i < n
            invariant
                n == self.affected_objects@.len(),
                i <= n,
                forall|j: int| 0 <= j < i ==> #[trigger] self.affected()[j] != name@,
            decreases n - i,
        {
            assert(self.affected()[i as int] == self.affected_objects@[i as int]@);
            if compare_names(self.affected_objects[i].as_str(), name) == NameOrder::Equal {
                assert(self.affected().contains(name@));
                return false;
            }
            i = i + 1;
        }
        true
    }

    /// Records that `name` now carries the light shader.
    pub fn mark_affected(&mut self, name: String)
        requires
            old(self).wf(),
        ensures
            final(self).wf(),
            final(self).affected() == mark_step(old(self).affected(), name@),
            final(self).light_entries() == old(self).light_entries(),
            final(self).ambient_setting() == old(self).ambient_setting(),
    {
        if self.needs_shader(name.as_str()) {
            let ghost key = name@;
            self.affected_objects.push(name);
            assert(self.affected() =~= old(self).affected().push(key));
        }
    }

    /// Decides what an update does with the object `name` that has
    /// `uniform_buffer_count` uniform buffers and whose camera effect is
    /// `camera_effect`: a light only gets its record refreshed; any other
    /// object is lit by the light with the least name, gets its light buffer
    /// at the slot after its transformation and colour buffers, and gets the
    /// light shader built from `shader_template` unless it has it already.
    pub fn plan_object<'a>(
        &'a self,
        name: &str,
        uniform_buffer_count: usize,
        camera_effect: bool,
        shader_template: &str,
    ) -> (plan: ObjectPlan<'a, L>)
        requires
            self.wf(),
            !self.lights().dom().contains(name@) ==> uniform_buffer_count >= 2,
            !self.lights().dom().contains(name@) ==> exists|k: Seq<char>|
                self.lights().dom().contains(k),
        ensures
            self.lights().dom().contains(name@) ==> plan is UpdateLight,
            !self.lights().dom().contains(name@) ==> (plan matches ObjectPlan::Shade { light, slot, shader } && {
                &&& exists|k: Seq<char>| is_least_name(self.lights(), k) && *light == self.lights()[k]
                &&& slot == uniform_slot_spec(uniform_buffer_count)
                &&& (shader is None <==> self.affected().contains(name@))
                &&& (shader matches Some(source) ==> source@ == light_shader(shader_template@, camera_effect))
            }),
    {
        if self.is_light(name) {
            return ObjectPlan::UpdateLight;
        }
        let light = match self.primary_light() {
            Some(light) => light,
            None => {
                assert(false);
                return ObjectPlan::UpdateLight;
            },
        };
        let slot = uniform_slot(uniform_buffer_count);
        let shader = if self.needs_shader(name) {
            Some(light_shader_source(shader_template, camera_effect))
        } else {
            None
        };
        ObjectPlan::Shade { light, slot, shader }
    }
}

} // verus!

verus! {

/// Law of `set_object_as_light`: the object is a light with the given
/// record afterwards, every earlier light is still one, and every other
/// light keeps its record.
pub proof fn law_set_light<A, L>(
    before: LightManager<A, L>,
    after: LightManager<A, L>,
    name: Seq<char>,
    record: L,
)
    requires
        after.lights() == before.lights().insert(name, record),
    ensures
        after.lights().dom().contains(name),
        after.lights()[name] == record,
        forall|k: Seq<char>| before.lights().dom().contains(k) ==> after.lights().dom().contains(k),
        forall|k: Seq<char>|
            before.lights().dom().contains(k) && k != name ==> after.lights()[k] == before.lights()[k],
{
}

/// Law of an update: refreshing the record of an existing light keeps the
/// same light as the one that lights all other objects.
pub proof fn law_refresh_keeps_primary<A, L>(
    before: LightManager<A, L>,
    after: LightManager<A, L>,
    name: Seq<char>,
    record: L,
    primary: Seq<char>,
)
    requires
        before.lights().dom().contains(name),
        after.lights() == before.lights().insert(name, record),
        is_least_name(before.lights(), primary),
    ensures
        after.lights().dom() == before.lights().dom(),
        is_least_name(after.lights(), primary),
{
    assert(after.lights().dom() =~= before.lights().dom());
}

/// Law of the shader rewrite: once an object is reported with
/// `mark_affected`, it is listed as affected (so `plan_object` gives it no
/// shader again), and reporting it again changes nothing.
pub proof fn law_shader_once<A, L>(
    before: LightManager<A, L>,
    after: LightManager<A, L>,
    name: Seq<char>,
)
    requires
        after.affected() == (if before.affected().contains(name) {
            before.affected()
        } else {
            before.affected().push(name)
        }),
    ensures
        after.affected().contains(name),
        before.affected().contains(name) ==> after.affected() == before.affected(),
        forall|k: Seq<char>| before.affected().contains(k) ==> after.affected().contains(k),
{
    if !before.affected().contains(name) {
        assert(after.affected()[before.affected().len() as int] == name);
        assert forall|k: Seq<char>| before.affected().contains(k) implies after.affected().contains(k) by {
            let i = choose|i: int| 0 <= i < before.affected().len() && before.affected()[i] == k;
            assert(after.affected()[i] == k);
        }
    }
}

/// The least light name is unique.
pub proof fn law_primary_unique<L>(lights: Map<Seq<char>, L>, a: Seq<char>, b: Seq<char>)
    requires
        is_least_name(lights, a),
        is_least_name(lights, b),
    ensures
        a == b,
{
    lemma_name_order(a, b, a);
}

} // verus!

verus! {

/// Law of an update: the affected list only grows at its end; afterwards
/// it lists every object visited that is no light, each once, and the
/// objects it gained come in the order in which the update first visited
/// them.
pub proof fn law_update_marks_objects(
    affected: Seq<Seq<char>>,
    lights: Set<Seq<char>>,
    names: Seq<Seq<char>>,
)
    requires
        affected.no_duplicates(),
    ensures
        ({
            let after = affected_after_update(affected, lights, names);
            &&& after.no_duplicates()
            &&& affected.len() <= after.len()
            &&& after.take(affected.len() as int) == affected
            &&& forall|k: Seq<char>| #[trigger] after.contains(k) <==> affected.contains(k) || (
                names.contains(k) && !lights.contains(k))
            &&& forall|i: int, j: int, p: int, q: int|
                affected.len() <= i < j < after.len() && #[trigger] first_at(names, after[i], p)
                    && #[trigger] first_at(names, after[j], q) ==> p < q
        }),
    decreases names.len(),
{
    let after = affected_after_update(affected, lights, names);
    if names.len() == 0 {
        assert(after.take(affected.len() as int) =~= affected);
    } else {
        let rest = names.drop_last();
        let n = names.last();
        let prev = affected_after_update(affected, lights, rest);
        law_update_marks_objects(affected, lights, rest);
        assert forall|k: Seq<char>| names.contains(k) <==> rest.contains(k) || k == n by {
            if names.contains(k) {
                let i = choose|i: int| 0 <= i < names.len() && names[i] == k;
                if i < names.len() - 1 {
                    assert(rest[i] == k);
                }
            }
            if rest.contains(k) {
                let i = choose|i: int| 0 <= i < rest.len() && rest[i] == k;
                assert(names[i] == k);
            }
            if k == n {
                assert(names[names.len() - 1] == k);
            }
        }
        // first occurrences in `names` of names already in `rest` are the same as in `rest`
        assert forall|x: Seq<char>, p: int| first_at(names, x, p) && rest.contains(x) implies first_at(
            rest,
            x,
            p,
        ) by {
            let i = choose|i: int| 0 <= i < rest.len() && rest[i] == x;
            assert(names[i] == x);
            assert(p <= i);
        }
        if lights.contains(n) || prev.contains(n) {
            assert(after == prev);
            assert forall|k: Seq<char>| #[trigger] after.contains(k) <==> affected.contains(k) || (
                names.contains(k) && !lights.contains(k)) by {}
            assert forall|i: int, j: int, p: int, q: int|
                affected.len() <= i < j < after.len() && #[trigger] first_at(names, after[i], p)
                    && #[trigger] first_at(names, after[j], q) implies p < q by {
                assert(prev.contains(after[i]) && prev.contains(after[j]));
                assert(rest.contains(after[i]) && rest.contains(after[j])) by {
                    assert(!affected.contains(after[i])) by {
                        if affected.contains(after[i]) {
                            let m = choose|m: int| 0 <= m < affected.len() && affected[m] == after[i];
                            assert(prev.take(affected.len() as int)[m] == prev[m]);
                        }
                    }
                    assert(!affected.contains(after[j])) by {
                        if affected.contains(after[j]) {
                            let m = choose|m: int| 0 <= m < affected.len() && affected[m] == after[j];
                            assert(prev.take(affected.len() as int)[m] == prev[m]);
                        }
                    }
                }
            }
        } else {
            assert(after == prev.push(n));
            assert(!rest.contains(n));
            assert(after.take(affected.len() as int) =~= prev.take(affected.len() as int));
            assert forall|a: int, b: int| 0 <= a < after.len() && 0 <= b < after.len() && a != b implies after[a]
                != after[b] by {
                if a < prev.len() && b < prev.len() {
                } else if a == prev.len() {
                    assert(prev.contains(after[b]));
                } else {
                    assert(prev.contains(after[a]));
                }
            }
            assert forall|k: Seq<char>| #[trigger] after.contains(k) <==> affected.contains(k) || (
                names.contains(k) && !lights.contains(k)) by {
                if after.contains(k) && k != n {
                    let i = choose|i: int| 0 <= i < after.len() && after[i] == k;
                    assert(prev[i] == k);
                }
                if k == n {
                    assert(after[prev.len() as int] == k);
                } else if prev.contains(k) {
                    let i = choose|i: int| 0 <= i < prev.len() && prev[i] == k;
                    assert(after[i] == k);
                }
            }
            assert forall|i: int, j: int, p: int, q: int|
                affected.len() <= i < j < after.len() && #[trigger] first_at(names, after[i], p)
                    && #[trigger] first_at(names, after[j], q) implies p < q by {
                assert(after[i] == prev[i]);
                assert(prev.contains(after[i]));
                assert(!affected.contains(after[i])) by {
                    if affected.contains(after[i]) {
                        let m = choose|m: int| 0 <= m < affected.len() && affected[m] == after[i];
                        assert(prev.take(affected.len() as int)[m] == prev[m]);
                    }
                }
                assert(rest.contains(after[i]));
                if j < prev.len() {
                    assert(after[j] == prev[j]);
                    assert(prev.contains(after[j]));
                    assert(!affected.contains(after[j])) by {
                        if affected.contains(after[j]) {
                            let m = choose|m: int| 0 <= m < affected.len() && affected[m] == after[j];
                            assert(prev.take(affected.len() as int)[m] == prev[m]);
                        }
                    }
                    assert(rest.contains(after[j]));
                } else {
                    assert(after[j] == n);
                    if q < names.len() - 1 {
                        assert(rest[q] == n);
                    }
                    let r = choose|r: int| 0 <= r < rest.len() && rest[r] == after[i];
                    assert(names[r] == after[i]);
                }
            }
        }
    }
}

/// An update changes nothing in an affected list that already lists every
/// visited object that is no light.
proof fn lemma_update_stable(affected: Seq<Seq<char>>, lights: Set<Seq<char>>, names: Seq<Seq<char>>)
    requires
        forall|k: Seq<char>| names.contains(k) && !lights.contains(k) ==> affected.contains(k),
    ensures
        affected_after_update(affected, lights, names) == affected,
    decreases names.len(),
{
    if names.len() > 0 {
        let rest = names.drop_last();
        assert forall|k: Seq<char>| rest.contains(k) && !lights.contains(k) implies affected.contains(k) by {
            let i = choose|i: int| 0 <= i < rest.len() && rest[i] == k;
            assert(names[i] == k);
        }
        lemma_update_stable(affected, lights, rest);
        assert(names.contains(names.last())) by {
            assert(names[names.len() - 1] == names.last());
        }
    }
}

/// Law of a second update over the same objects: it gives no object the
/// light shader, at any step, and leaves the affected list as the first
/// update left it.
pub proof fn law_second_update_changes_nothing(
    affected: Seq<Seq<char>>,
    lights: Set<Seq<char>>,
    names: Seq<Seq<char>>,
)
    requires
        affected.no_duplicates(),
    ensures
        ({
            let after = affected_after_update(affected, lights, names);
            &&& affected_after_update(after, lights, names) == after
            &&& forall|i: int|
                0 <= i < names.len() ==> !shader_given(
                    #[trigger] affected_after_update(after, lights, names.take(i)),
                    lights,
                    names[i],
                )
        }),
{
    let after = affected_after_update(affected, lights, names);
    law_update_marks_objects(affected, lights, names);
    lemma_update_stable(after, lights, names);
    assert forall|i: int| 0 <= i < names.len() implies !shader_given(
        #[trigger] affected_after_update(after, lights, names.take(i)),
        lights,
        names[i],
    ) by {
        let prefix = names.take(i);
        assert forall|k: Seq<char>| prefix.contains(k) && !lights.contains(k) implies after.contains(k) by {
            let r = choose|r: int| 0 <= r < prefix.len() && prefix[r] == k;
            assert(names[r] == k);
            assert(names.contains(k));
        }
        lemma_update_stable(after, lights, prefix);
        assert(names.contains(names[i]));
    }
}

} // verus!

verus! {

/// `from` occurs in `s` starting at `i`.
pub open spec fn occurs_at(s: Seq<char>, from: Seq<char>, i: int) -> bool {
    0 <= i && i + from.len() <= s.len() && s.subrange(i, i + from.len()) == from
}

/// `s` holds no `/`, so no shader placeholder can start in it.
pub open spec fn slash_free(s: Seq<char>) -> bool {
    forall|i: int| 0 <= i < s.len() ==> s[i] != '/'
}

/// Replacing leaves a text unchanged before the first place where the
/// pattern may start.
proof fn lemma_replace_after_prefix(p: Seq<char>, x: Seq<char>, from: Seq<char>, to: Seq<char>)
    requires
        from.len() > 0,
        forall|i: int| 0 <= i < p.len() ==> !occurs_at(p + x, from, i),
    ensures
        replace_all(p + x, from, to) == p + replace_all(x, from, to),
    decreases p.len(),
{
    let s = p + x;
    if p.len() == 0 {
        assert(s =~= x);
        assert(p + replace_all(x, from, to) =~= replace_all(x, from, to));
    } else if s.len() < from.len() {
        assert(x.len() < from.len());
    } else {
        assert(s.take(from.len() as int) =~= s.subrange(0, from.len() as int));
        assert(!occurs_at(s, from, 0));
        let p1 = p.drop_first();
        assert(s.drop_first() =~= p1 + x);
        assert forall|i: int| 0 <= i < p1.len() implies !occurs_at(p1 + x, from, i) by {
            if occurs_at(p1 + x, from, i) {
                assert((p1 + x).subrange(i, i + from.len()) =~= s.subrange(i + 1, i + 1 + from.len()));
                assert(occurs_at(s, from, i + 1));
            }
        }
        lemma_replace_after_prefix(p1, x, from, to);
        assert(seq![s[0]] + (p1 + replace_all(x, from, to)) =~= p + replace_all(x, from, to));
    }
}

/// A text without `/` has no placeholder to replace.
proof fn lemma_replace_slash_free(x: Seq<char>, from: Seq<char>, to: Seq<char>)
    requires
        from.len() > 0,
        from[0] == '/',
        slash_free(x),
    ensures
        replace_all(x, from, to) == x,
{
    assert forall|i: int| 0 <= i < x.len() implies !occurs_at(x + Seq::empty(), from, i) by {
        assert(x + Seq::<char>::empty() =~= x);
        if occurs_at(x, from, i) {
            assert(x.subrange(i, i + from.len())[0] == from[0]);
        }
    }
    lemma_replace_after_prefix(x, Seq::empty(), from, to);
    assert(x + Seq::<char>::empty() =~= x);
    assert(x + replace_all(Seq::<char>::empty(), from, to) =~= x);
}

/// A `/`-free text puts no placeholder before what follows it.
proof fn lemma_slash_free_prefix(p: Seq<char>, x: Seq<char>, from: Seq<char>, to: Seq<char>)
    requires
        from.len() > 0,
        from[0] == '/',
        slash_free(p),
    ensures
        replace_all(p + x, from, to) == p + replace_all(x, from, to),
{
    assert forall|i: int| 0 <= i < p.len() implies !occurs_at(p + x, from, i) by {
        if occurs_at(p + x, from, i) {
            assert((p + x).subrange(i, i + from.len())[0] == from[0]);
        }
    }
    lemma_replace_after_prefix(p, x, from, to);
}

/// A text that starts with the pattern has it replaced there.
proof fn lemma_replace_head(x: Seq<char>, from: Seq<char>, to: Seq<char>)
    requires
        from.len() > 0,
    ensures
        replace_all(from + x, from, to) == to + replace_all(x, from, to),
{
    let s = from + x;
    assert(s.take(from.len() as int) =~= from);
    assert(s.skip(from.len() as int) =~= x);
}

/// Neither placeholder starts inside the other one.
proof fn lemma_markers_apart(x: Seq<char>)
    ensures
        forall|i: int|
            0 <= i < camera_struct_marker().len() ==> !occurs_at(camera_struct_marker() + x, camera_out_marker(), i),
        forall|i: int|
            0 <= i < camera_out_marker().len() ==> !occurs_at(camera_out_marker() + x, camera_struct_marker(), i),
{
    reveal_strlit("//@CAMERASTRUCT");
    reveal_strlit("//@CAMERAOUT");
    let m1 = camera_struct_marker();
    let m2 = camera_out_marker();
    assert forall|i: int| 0 <= i < m1.len() implies !occurs_at(m1 + x, m2, i) by {
        let s = m1 + x;
        if occurs_at(s, m2, i) {
            assert(s.subrange(i, i + m2.len())[0] == m2[0]);
            if i == 0 {
                assert(s.subrange(i, i + m2.len())[9] == m2[9]);
            } else if i == 1 {
                assert(s.subrange(i, i + m2.len())[1] == m2[1]);
            }
        }
    }
    assert forall|i: int| 0 <= i < m2.len() implies !occurs_at(m2 + x, m1, i) by {
        let s = m2 + x;
        if occurs_at(s, m1, i) {
            assert(s.subrange(i, i + m1.len())[0] == m1[0]);
            if i == 0 {
                assert(s.subrange(i, i + m1.len())[9] == m1[9]);
            } else if i == 1 {
                assert(s.subrange(i, i + m1.len())[1] == m1[1]);
            }
        }
    }
}

/// The fixed texts: both placeholders start with `/`, and the texts put in
/// their place hold no `/`.
proof fn lemma_shader_texts()
    ensures
        camera_struct_marker().len() > 0,
        camera_struct_marker()[0] == '/',
        camera_out_marker().len() > 0,
        camera_out_marker()[0] == '/',
        slash_free(camera_struct_source()),
        slash_free(camera_out_with_camera()),
        slash_free(camera_out_without_camera()),
{
    reveal_strlit("//@CAMERASTRUCT");
    reveal_strlit("//@CAMERAOUT");
    reveal_strlit(
        "\nstruct CameraUniforms {\n    camera_matrix: mat4x4<f32>,\n};\n@group(1) @binding(0)\nvar<uniform> camera_uniform: CameraUniforms;",
    );
    reveal_strlit(
        "out.position = camera_uniform.camera_matrix * (transform_uniform.transform_matrix * vec4<f32>(input.position, 1.0));",
    );
    reveal_strlit("out.position = transform_uniform.transform_matrix * vec4<f32>(input.position, 1.0);");
}

/// Law of the light shader: in a template made of text `p`, the camera
/// struct placeholder, text `q`, the position placeholder and text `s`
/// (none of `p`, `q`, `s` holding a `/`), an object with camera effect gets
/// both placeholders filled where they stand, and an object without camera
/// effect gets the position placeholder filled and the struct placeholder
/// left as it is. A template without placeholders is left as it is.
pub proof fn law_light_shader_fills_placeholders(p: Seq<char>, q: Seq<char>, s: Seq<char>)
    requires
        slash_free(p),
        slash_free(q),
        slash_free(s),
    ensures
        light_shader(p + camera_struct_marker() + q + camera_out_marker() + s, true) == p
            + camera_struct_source() + q + camera_out_with_camera() + s,
        light_shader(p + camera_struct_marker() + q + camera_out_marker() + s, false) == p
            + camera_struct_marker() + q + camera_out_without_camera() + s,
        light_shader(p, true) == p,
        light_shader(p, false) == p,
{
    lemma_shader_texts();
    let m1 = camera_struct_marker();
    let m2 = camera_out_marker();
    let src = camera_struct_source();
    let outc = camera_out_with_camera();
    let outn = camera_out_without_camera();
    let t = p + m1 + q + m2 + s;
    // with camera effect, first stage
    assert(t =~= p + (m1 + (q + (m2 + s))));
    lemma_slash_free_prefix(p, m1 + (q + (m2 + s)), m1, src);
    lemma_replace_head(q + (m2 + s), m1, src);
    lemma_slash_free_prefix(q, m2 + s, m1, src);
    lemma_markers_apart(s);
    lemma_replace_after_prefix(m2, s, m1, src);
    lemma_replace_slash_free(s, m1, src);
    let stage1 = p + src + q + m2 + s;
    assert(replace_all(t, m1, src) =~= stage1);
    // second stage
    let pre = p + src + q;
    assert(slash_free(pre));
    assert(stage1 =~= pre + (m2 + s));
    lemma_slash_free_prefix(pre, m2 + s, m2, outc);
    lemma_replace_head(s, m2, outc);
    lemma_replace_slash_free(s, m2, outc);
    assert(replace_all(stage1, m2, outc) =~= p + src + q + outc + s);
    // without camera effect
    lemma_slash_free_prefix(p, m1 + (q + (m2 + s)), m2, outn);
    lemma_markers_apart(q + (m2 + s));
    lemma_replace_after_prefix(m1, q + (m2 + s), m2, outn);
    lemma_slash_free_prefix(q, m2 + s, m2, outn);
    lemma_replace_head(s, m2, outn);
    lemma_replace_slash_free(s, m2, outn);
    assert(replace_all(t, m2, outn) =~= p + m1 + q + outn + s);
    // no placeholders
    lemma_replace_slash_free(p, m1, src);
    lemma_replace_slash_free(p, m2, outc);
    lemma_replace_slash_free(p, m2, outn);
}

} // verus!

verus! {

/// Law of the buffer slot: the light buffer always goes at index 2, right
/// after the transformation and colour buffers; it is appended when the
/// object has only those two and replaces the buffer at index 2 otherwise.
pub proof fn law_uniform_slot(count: usize)
    requires
        count >= 2,
    ensures
        uniform_slot_spec(count) == UniformSlot::Push <==> count == 2,
        uniform_slot_spec(count) matches UniformSlot::Replace(index) ==> index == 2 && index < count,
{
}

} // verus!
