use vstd::prelude::*;

verus! {

/// The objects and lights of a scene. Objects get dense ids in the order in
/// which they are added; each id has a shape slot and a material slot.
pub struct Scene<S, M, L> {
    objects: Vec<usize>,
    materials: Vec<Option<M>>,
    shapes: Vec<Option<S>>,
    lights: Vec<L>,
}

impl<S, M, L> Scene<S, M, L> {
    /// Number of objects added so far.
    pub closed spec fn object_count(&self) -> nat {
        self.objects@.len()
    }

    /// The shape slot of object `id`.
    pub closed spec fn shape_at(&self, id: int) -> Option<S> {
        self.shapes@[id]
    }

    /// The material slot of object `id`.
    pub closed spec fn material_at(&self, id: int) -> Option<M> {
        self.materials@[id]
    }

    /// The lights, in the order in which they were added.
    pub closed spec fn light_list(&self) -> Seq<L> {
        self.lights@
    }

    /// Ids run from 0 up, one shape slot and one material slot each.
    pub closed spec fn wf(&self) -> bool {
        &&& self.materials@.len() == self.objects@.len()
        &&& self.shapes@.len() == self.objects@.len()
        &&& forall|i: int| 0 <= i < self.objects@.len() ==> self.objects@[i] == i
    }

    /// An empty scene.
    pub fn new() -> (scene: Scene<S, M, L>)
        ensures
            scene.wf(),
            scene.object_count() == 0,
            scene.light_list() == Seq::<L>::empty(),
    {
        Scene { objects: Vec::new(), materials: Vec::new(), shapes: Vec::new(), lights: Vec::new() }
    }

    /// Adds an object and returns its id, the number of objects before it.
    pub fn add_object(&mut self, shape: S, material: M) -> (id: usize)
        requires
            old(self).wf(),
        ensures
            final(self).wf(),
            id == old(self).object_count(),
            final(self).object_count() == old(self).object_count() + 1,
            final(self).shape_at(id as int) == Some(shape),
            final(self).material_at(id as int) == Some(material),
            forall|i: int|
                0 <= i < old(self).object_count() ==> final(self).shape_at(i) == old(self).shape_at(i)
                    && final(self).material_at(i) == old(self).material_at(i),
            final(self).light_list() == old(self).light_list(),
    {
        let id = self.generate_next_id();
        self.materials.set(id, Some(material));
        self.shapes.set(id, Some(shape));
        id
    }

    /// Adds a light after the others.
    pub fn add_light(&mut self, light: L)
        requires
            old(self).wf(),
        ensures
            final(self).wf(),
            final(self).light_list() == old(self).light_list().push(light),
            final(self).object_count() == old(self).object_count(),
            forall|i: int|
                0 <= i < old(self).object_count() ==> final(self).shape_at(i) == old(self).shape_at(i)
                    && final(self).material_at(i) == old(self).material_at(i),
    {
        self.lights.push(light);
    }

    fn generate_next_id(&mut self) -> (id: usize)
        requires
            old(self).wf(),
        ensures
            final(self).wf(),
            id == old(self).object_count(),
            final(self).object_count() == id + 1,
            final(self).shape_at(id as int) is None,
            final(self).material_at(id as int) is None,
            forall|i: int|
                0 <= i < id ==> final(self).shape_at(i) == old(self).shape_at(i)
                    && final(self).material_at(i) == old(self).material_at(i),
            final(self).light_list() == old(self).light_list(),
    {
        let id = self.objects.len();
        self.resize_to_fit(id);
        id
    }

    fn resize_to_fit(&mut self, id: usize)
        requires
            old(self).wf(),
            id == old(self).object_count(),
        ensures
            final(self).wf(),
            final(self).objects@ == old(self).objects@.push(id),
            final(self).materials@ == old(self).materials@.push(None),
            final(self).shapes@ == old(self).shapes@.push(None),
            final(self).lights@ == old(self).lights@,
    {
        self.objects.push(id);
        self.materials.push(None);
        self.shapes.push(None);
    }

    /// Number of objects added so far.
    pub fn len(&self) -> (n: usize)
        ensures
            n == self.object_count(),
    {
        self.objects.len()
    }

    /// The shape of object `id`, if it has one.
    pub fn shape(&self, id: usize) -> (r: Option<&S>)
        requires
            self.wf(),
        ensures
            id < self.object_count() ==> match r {
                Some(s) => self.shape_at(id as int) == Some(*s),
                None => self.shape_at(id as int) is None,
            },
            id >= self.object_count() ==> r is None,
    {
        if id < self.shapes.len() {
            match &self.shapes[id] {
                Some(s) => Some(s),
                None => None,
            }
        } else {
            None
        }
    }

    /// The material of object `id`, if it has one.
    pub fn material(&self, id: usize) -> (r: Option<&M>)
        requires
            self.wf(),
        ensures
            id < self.object_count() ==> match r {
                Some(m) => self.material_at(id as int) == Some(*m),
                None => self.material_at(id as int) is None,
            },
            id >= self.object_count() ==> r is None,
    {
        if id < self.materials.len() {
            match &self.materials[id] {
                Some(m) => Some(m),
                None => None,
            }
        } else {
            None
        }
    }

    /// The lights, in the order in which they were added.
    pub fn lights(&self) -> (r: &Vec<L>)
        ensures
            r@ == self.light_list(),
    {
        &self.lights
    }
}

} // verus!
