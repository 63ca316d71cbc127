use vstd::prelude::*;

verus! {

/// The handle of a control: the slot it lives in, and the generation that slot had when the
/// handle was made. A handle stops being valid once its slot is freed. Handles are unique within
/// one `Controls` (until its generation counter wraps around), not across two of them: each
/// `Controls` counts its own generations, so the same handle can be valid in two of them.
#[derive(Clone, Copy, PartialEq, Eq, Structural, Debug, Hash)]
pub struct Id {
    pub index: u32,
    pub generation: u32,
}

impl Id {
    /// The handle of the root control, which every `Controls` starts with.
    pub fn root() -> (id: Id)
        ensures
            id == root_id(),
    {
        Id { index: 0, generation: 1 }
    }

    /// Get the index of the control in the controls vector.
    pub fn index(&self) -> (i: usize)
        ensures
            i == self.index,
    {
        self.index as usize
    }

    /// Get the generation of the control it is refering.
    pub fn generation(&self) -> (g: u32)
        ensures
            g == self.generation,
    {
        self.generation
    }
}

/// The handle of the root control.
pub open spec fn root_id() -> Id {
    Id { index: 0, generation: 1 }
}

/// A node of the control tree. `data` holds whatever the user of the tree attaches to a control
/// (its rect, graphic, behaviour, ...).
pub struct Control<T> {
    pub generation: u32,
    pub data: T,
    pub parent: Option<Id>,
    pub children: Vec<Id>,
    pub active: bool,
    pub focus: bool,
    pub really_active: bool,
}

impl<T> Control<T> {
    /// A control of the given generation, with no parent or children, inactive and unfocused.
    pub fn new(generation: u32, data: T) -> (c: Control<T>)
        ensures
            c.generation == generation,
            c.data == data,
            c.parent is None,
            c.children@ == Seq::<Id>::empty(),
            !c.active,
            !c.focus,
            !c.really_active,
    {
        Control {
            generation,
            data,
            parent: None,
            children: Vec::new(),
            active: false,
            focus: false,
            really_active: false,
        }
    }

    /// The generation of the slot this control was built for.
    pub fn generation(&self) -> (g: u32)
        ensures
            g == self.generation,
    {
        self.generation
    }

    /// Append `child` to the children, unless it is already one of them.
    pub fn add_child(&mut self, child: Id)
        ensures
            final(self).children@ == spec_add_child(old(self).children@, child),
            final(self).generation == old(self).generation,
            final(self).data == old(self).data,
            final(self).parent == old(self).parent,
            final(self).active == old(self).active,
            final(self).focus == old(self).focus,
            final(self).really_active == old(self).really_active,
    {
        let mut i: usize = 0;
        while i < self.children.len()
            invariant
                i <= self.children@.len(),
                self.children@ == old(self).children@,
                self.generation == old(self).generation,
                self.data == old(self).data,
                self.parent == old(self).parent,
                self.active == old(self).active,
                self.focus == old(self).focus,
                self.really_active == old(self).really_active,
                forall|j: int| 0 <= j < i ==> self.children@[j] != child,
            decreases self.children@.len() - i,
        {
            if self.children[i] == child {
                assert(self.children@.contains(child));
                return;
            }
            i = i + 1;
        }
        self.children.push(child);
    }
}

/// `children` with `child` appended, unless it already holds it.
pub open spec fn spec_add_child(children: Seq<Id>, child: Id) -> Seq<Id> {
    if children.contains(child) {
        children
    } else {
        children.push(child)
    }
}

/// The state of one slot of `Controls`.
pub enum ControlEntry<T> {
    /// The slot is free, and can be occupied by a new control. No valid Id points to it.
    Free { free_next: Option<u32> },
    /// `reserve` has been called, so an Id points to it, but the control is not yet built.
    /// Controls can already be built with this as parent.
    Reserved { generation: u32, children: Vec<Id> },
    /// The control has been built, but is not yet alive.
    Builded { control: Control<T> },
    /// The control is alive.
    Started { control: Control<T> },
}

impl<T> ControlEntry<T> {
    /// The control of this slot, if it is built and of the generation of `id`.
    pub open spec fn spec_get(&self, id: Id) -> Option<Control<T>> {
        match self {
            ControlEntry::Builded { control } | ControlEntry::Started { control } => {
                if control.generation == id.generation {
                    Some(*control)
                } else {
                    None
                }
            },
            _ => None,
        }
    }

    fn get(&self, id: Id) -> (res: Option<&Control<T>>)
        ensures
            match res {
                Some(c) => self.spec_get(id) == Some(*c),
                None => self.spec_get(id) is None,
            },
    {
        match self {
            ControlEntry::Builded { control } | ControlEntry::Started { control } => {
                if control.generation != id.generation {
                    return None;
                }
                Some(control)
            },
            ControlEntry::Free { .. } | ControlEntry::Reserved { .. } => None,
        }
    }
}

/// The position of the first `x` in `s`, or the length of `s` when there is none.
pub open spec fn first_index(s: Seq<Id>, x: Id) -> int
    decreases s.len(),
{
    if s.len() == 0 {
        0
    } else if s[0] == x {
        0
    } else {
        1 + first_index(s.drop_first(), x)
    }
}

/// `first_index` finds the first occurrence.
pub proof fn lemma_first_index(s: Seq<Id>, x: Id)
    ensures
        0 <= first_index(s, x) <= s.len(),
        forall|j: int| 0 <= j < first_index(s, x) ==> s[j] != x,
        s.contains(x) <==> first_index(s, x) < s.len(),
        first_index(s, x) < s.len() ==> s[first_index(s, x)] == x,
    decreases s.len(),
{
    if s.len() > 0 && s[0] != x {
        lemma_first_index(s.drop_first(), x);
        assert forall|j: int| 0 <= j < first_index(s, x) implies s[j] != x by {
            if j > 0 {
                assert(s[j] == s.drop_first()[j - 1]);
            }
        }
        if s.contains(x) {
            let k = choose|k: int| 0 <= k < s.len() && s[k] == x;
            assert(s.drop_first()[k - 1] == x);
        }
        if first_index(s, x) < s.len() {
            assert(s[first_index(s, x)] == s.drop_first()[first_index(s.drop_first(), x)]);
        }
    }
}

/// The position of the first occurrence of `x` in `v`.
fn find_first(v: &Vec<Id>, x: Id) -> (i: usize)
    requires
        v@.contains(x),
    ensures
        i == first_index(v@, x),
        i < v@.len(),
        v@[i as int] == x,
{
    let ghost s = v@;
    let mut i: usize = 0;
    let len = v.len();
    proof {
        lemma_first_index(s, x);
    }
    while v[i] != x
        invariant
            s == v@,
            len == s.len(),
            s.contains(x),
            i <= first_index(s, x) < s.len(),
            forall|j: int| 0 <= j < first_index(s, x) ==> s[j] != x,
            s[first_index(s, x)] == x,
        decreases s.len() - i,
    {
        assert(s[i as int] != x);
        assert(i < first_index(s, x));
        i = i + 1;
    }
    i
}

/// The `j`-th elements of `x` and `y` counted from their ends are equal.
pub open spec fn ends_match(x: Seq<Id>, y: Seq<Id>, j: int) -> bool {
    x[x.len() - 1 - j] == y[y.len() - 1 - j]
}

/// How many elements at the ends of `x` and `y` are equal, pairwise from the last.
pub open spec fn common_suffix_len(x: Seq<Id>, y: Seq<Id>) -> nat
    decreases x.len(),
{
    if x.len() == 0 || y.len() == 0 || x.last() != y.last() {
        0
    } else {
        1 + common_suffix_len(x.drop_last(), y.drop_last())
    }
}

/// The first element of the longest common suffix of `x` and `y`, if they have one.
pub open spec fn deepest_common(x: Seq<Id>, y: Seq<Id>) -> Option<Id> {
    let k = common_suffix_len(x, y);
    if k == 0 {
        None
    } else {
        Some(x[x.len() - k])
    }
}

proof fn lemma_common_suffix_len(x: Seq<Id>, y: Seq<Id>, i: int)
    requires
        0 <= i <= x.len(),
        i <= y.len(),
        forall|j: int| 0 <= j < i ==> #[trigger] ends_match(x, y, j),
    ensures
        common_suffix_len(x, y) == i + common_suffix_len(
            x.take(x.len() - i),
            y.take(y.len() - i),
        ),
    decreases i,
{
    if i == 0 {
        assert(x.take(x.len() as int) =~= x);
        assert(y.take(y.len() as int) =~= y);
    } else {
        assert(ends_match(x, y, 0));
        assert(x.last() == y.last());
        let x1 = x.drop_last();
        let y1 = y.drop_last();
        assert(ends_match(x, y, 0));
        assert forall|j: int| 0 <= j < i - 1 implies #[trigger] ends_match(x1, y1, j) by {
            assert(ends_match(x, y, j + 1));
        }
        lemma_common_suffix_len(x1, y1, i - 1);
        assert(x1.take(x1.len() - (i - 1)) =~= x.take(x.len() - i));
        assert(y1.take(y1.len() - (i - 1)) =~= y.take(y.len() - i));
    }
}

proof fn lemma_common_suffix_props(x: Seq<Id>, y: Seq<Id>)
    ensures
        common_suffix_len(x, y) <= x.len(),
        common_suffix_len(x, y) <= y.len(),
        forall|j: int| 0 <= j < common_suffix_len(x, y) ==> #[trigger] ends_match(x, y, j),
        common_suffix_len(x, y) < x.len() && common_suffix_len(x, y) < y.len() ==> !ends_match(
            x,
            y,
            common_suffix_len(x, y) as int,
        ),
    decreases x.len(),
{
    if !(x.len() == 0 || y.len() == 0 || x.last() != y.last()) {
        let x1 = x.drop_last();
        let y1 = y.drop_last();
        lemma_common_suffix_props(x1, y1);
        let k = common_suffix_len(x, y);
        assert forall|j: int| 0 <= j < k implies #[trigger] ends_match(x, y, j) by {
            if j > 0 {
                assert(ends_match(x1, y1, j - 1));
            }
        }
        if k < x.len() && k < y.len() {
            assert(!ends_match(x1, y1, k - 1));
        }
    }
}

proof fn lemma_common_suffix_sym(x: Seq<Id>, y: Seq<Id>)
    ensures
        common_suffix_len(x, y) == common_suffix_len(y, x),
        deepest_common(x, y) == deepest_common(y, x),
        deepest_common(x, x) == (if x.len() == 0 {
            None
        } else {
            Some(x[0])
        }),
    decreases x.len(),
{
    if !(x.len() == 0 || y.len() == 0 || x.last() != y.last()) {
        lemma_common_suffix_sym(x.drop_last(), y.drop_last());
    }
    lemma_common_suffix_props(x, y);
    let k = common_suffix_len(x, y);
    if k > 0 {
        assert(ends_match(x, y, k - 1));
    }
    lemma_common_suffix_self(x);
}

proof fn lemma_common_suffix_self(x: Seq<Id>)
    ensures
        common_suffix_len(x, x) == x.len(),
    decreases x.len(),
{
    if x.len() > 0 {
        lemma_common_suffix_self(x.drop_last());
    }
}

/// `s` with its element at `i` moved to the end.
pub open spec fn moved_to_end(s: Seq<Id>, i: int) -> Seq<Id> {
    s.remove(i).push(s[i])
}

/// `s` with its element at `i` moved to the start.
pub open spec fn moved_to_start(s: Seq<Id>, i: int) -> Seq<Id> {
    seq![s[i]] + s.remove(i)
}

/// `after` is `before` with `child` registered as one of its children: pushed onto the list of a
/// reserved slot, added (once) to the children of a built control.
pub open spec fn child_added<T>(before: ControlEntry<T>, after: ControlEntry<T>, child: Id) -> bool {
    match before {
        ControlEntry::Reserved { generation, children } => after matches ControlEntry::Reserved {
            generation: g,
            children: c,
        } && g == generation && c@ == children@.push(child),
        ControlEntry::Builded { control } => after matches ControlEntry::Builded { control: c }
            && same_but_children(c, control) && c.children@ == spec_add_child(control.children@, child),
        ControlEntry::Started { control } => after matches ControlEntry::Started { control: c }
            && same_but_children(c, control) && c.children@ == spec_add_child(control.children@, child),
        ControlEntry::Free { .. } => after == before,
    }
}

/// The generation of a reserved slot.
pub open spec fn reserved_generation<T>(entry: ControlEntry<T>) -> u32 {
    match entry {
        ControlEntry::Reserved { generation, .. } => generation,
        _ => 0,
    }
}

/// The generation of what a slot holds: that of the reserved Id or of the control, none when
/// it is free.
pub open spec fn entry_generation<T>(entry: ControlEntry<T>) -> Option<u32> {
    match entry {
        ControlEntry::Free { .. } => None,
        ControlEntry::Reserved { generation, .. } => Some(generation),
        ControlEntry::Builded { control } => Some(control.generation),
        ControlEntry::Started { control } => Some(control.generation),
    }
}

/// `a` and `b` agree on everything but their children.
pub open spec fn same_but_children<T>(a: Control<T>, b: Control<T>) -> bool {
    &&& a.generation == b.generation
    &&& a.data == b.data
    &&& a.parent == b.parent
    &&& a.active == b.active
    &&& a.focus == b.focus
    &&& a.really_active == b.really_active
}

/// `entry` with its control replaced by `c`, keeping the state of the entry.
pub open spec fn with_control<T>(entry: ControlEntry<T>, c: Control<T>) -> ControlEntry<T> {
    match entry {
        ControlEntry::Builded { .. } => ControlEntry::Builded { control: c },
        ControlEntry::Started { .. } => ControlEntry::Started { control: c },
        _ => entry,
    }
}

/// The next generation of the counter `counter`, skipping 0. The counter wraps around, which
/// means that after 4_294_967_295 generations invalid Id's are possible.
pub open spec fn spec_next_generation(counter: u32) -> (u32, u32) {
    if counter == 0 {
        (1, 2)
    } else if counter == u32::MAX {
        (u32::MAX, 0)
    } else {
        (counter, (counter + 1) as u32)
    }
}

/// Take the next generation from `counter`, which it advances. The value 0 is never handed out,
/// and the generations taken from one counter are distinct until it wraps around. Each
/// `Controls` holds a counter of its own.
pub fn next_generation(counter: &mut u32) -> (g: u32)
    ensures
        (g, *final(counter)) == spec_next_generation(*old(counter)),
        g != 0,
{
    let mut next = *counter;
    *counter = counter.wrapping_add(1);
    if next == 0 {
        next = *counter;
        *counter = counter.wrapping_add(1);
    }
    next
}

/// The slab of controls, addressed by `Id`. Freed slots are chained in a free list, and reused
/// by `reserve` before the slab grows. Its generations come from a counter of its own, so its
/// Ids are unique among its own (until the counter wraps around) but can equal those of another
/// `Controls`: an Id is only meaningful for the `Controls` that handed it out.
pub struct Controls<T> {
    free_head: Option<u32>,
    pub(crate) controls: Vec<ControlEntry<T>>,
    generation: u32,
    generation_counter: u32,
    free_list: Ghost<Seq<u32>>,
    retired: Ghost<Set<Id>>,
}

impl<T> Controls<T> {
    /// The entries of the slab.
    pub closed spec fn entries(&self) -> Seq<ControlEntry<T>> {
        self.controls@
    }

    /// The generation that the next reserved Id gets.
    pub closed spec fn current_generation(&self) -> u32 {
        self.generation
    }

    /// The state of the generation counter.
    pub closed spec fn counter(&self) -> u32 {
        self.generation_counter
    }

    /// The free slots, in the order `reserve` will hand them out.
    pub closed spec fn free_slots(&self) -> Seq<u32> {
        self.free_list@
    }

    /// The Ids of the controls removed since the generation counter last wrapped around.
    pub closed spec fn retired(&self) -> Set<Id> {
        self.retired@
    }

    /// Every retired Id is of a generation before the current one, and its slot holds nothing of
    /// its generation.
    closed spec fn retired_ok(&self) -> bool {
        forall|x: Id|
            #[trigger] self.retired@.contains(x) ==> x.generation < self.generation && (x.index
                < self.controls@.len() ==> entry_generation(self.controls@[x.index as int]) != Some(
                x.generation,
            ))
    }

    /// The control that `id` refers to, if it is valid.
    pub open spec fn spec_get(&self, id: Id) -> Option<Control<T>> {
        if id.index < self.entries().len() {
            self.entries()[id.index as int].spec_get(id)
        } else {
            None
        }
    }

    /// The slab is consistent: the free list chains exactly the free slots, each once, and the
    /// next generation is not 0.
    pub closed spec fn wf(&self) -> bool {
        let fl = self.free_list@;
        &&& self.generation != 0
        &&& self.generation_counter == (if self.generation == u32::MAX {
            0
        } else {
            (self.generation + 1) as u32
        })
        &&& self.controls@.len() <= u32::MAX as nat + 1
        &&& fl.no_duplicates()
        &&& self.free_head == (if fl.len() == 0 {
            None::<u32>
        } else {
            Some(fl[0])
        })
        &&& forall|k: int|
            0 <= k < fl.len() ==> {
                &&& (#[trigger] fl[k]) < self.controls@.len()
                &&& self.controls@[fl[k] as int] matches ControlEntry::Free { free_next }
                &&& free_next == (if k + 1 < fl.len() {
                    Some(fl[k + 1])
                } else {
                    None::<u32>
                })
            }
        &&& forall|i: int|
            0 <= i < self.controls@.len() && (#[trigger] self.controls@[i]) is Free
                ==> fl.contains(i as u32)
        &&& self.retired_ok()
    }

    /// Create a new Controls, with a single root control that holds `root`. The root is active
    /// and started.
    pub fn new(root: T) -> (res: Controls<T>)
        ensures
            res.wf(),
            res.entries().len() == 1,
            res.free_slots().len() == 0,
            res.current_generation() == 1,
            res.counter() == 2,
            res.entries()[0] matches ControlEntry::Started { control } && {
                &&& control.generation == 1
                &&& control.data == root
                &&& control.parent is None
                &&& control.children@.len() == 0
                &&& control.active
                &&& control.really_active
                &&& !control.focus
            },
    {
        let mut control = Control::new(1, root);
        control.active = true;
        control.really_active = true;
        let mut counter: u32 = 1;
        let generation = next_generation(&mut counter);
        let mut controls = Vec::new();
        controls.push(ControlEntry::Started { control });
        Controls {
            free_head: None,
            controls,
            generation,
            generation_counter: counter,
            free_list: Ghost(Seq::empty()),
            retired: Ghost(Set::empty()),
        }
    }

    /// `id` is reserved: its slot waits for a control of its generation to be built.
    pub fn is_reserved(&self, id: Id) -> (r: bool)
        ensures
            r == (id.index < self.entries().len() && reserved_generation(self.entries()[id.index as int])
                == id.generation && self.entries()[id.index as int] is Reserved),
    {
        if (id.index as usize) < self.controls.len() {
            match &self.controls[id.index as usize] {
                ControlEntry::Reserved { generation, .. } => *generation == id.generation,
                _ => false,
            }
        } else {
            false
        }
    }

    /// The slot `index` exists and is not free: it is reserved or holds a control.
    pub fn slot_taken(&self, index: u32) -> (r: bool)
        ensures
            r == (index < self.entries().len() && !(self.entries()[index as int] is Free)),
    {
        if (index as usize) < self.controls.len() {
            match &self.controls[index as usize] {
                ControlEntry::Free { .. } => false,
                _ => true,
            }
        } else {
            false
        }
    }

    /// The retired Ids stay retired across a change that keeps them and the current generation,
    /// and that gives each slot either the generation it had or the current one.
    proof fn lemma_retired_kept(&self, new: Controls<T>)
        requires
            self.retired_ok(),
            new.retired@ == self.retired@,
            new.generation == self.generation,
            self.controls@.len() <= new.controls@.len(),
            forall|i: int|
                0 <= i < new.controls@.len() ==> {
                    ||| i < self.controls@.len() && entry_generation(#[trigger] new.controls@[i])
                        == entry_generation(self.controls@[i])
                    ||| entry_generation(new.controls@[i]) == Some(new.generation)
                },
        ensures
            new.retired_ok(),
    {
        assert forall|x: Id| #[trigger] new.retired@.contains(x) implies x.generation < new.generation
            && (x.index < new.controls@.len() ==> entry_generation(new.controls@[x.index as int])
            != Some(x.generation)) by {
            assert(self.retired@.contains(x));
            if x.index < new.controls@.len() {
                let e = new.controls@[x.index as int];
                if x.index < self.controls@.len() {
                    assert(entry_generation(self.controls@[x.index as int]) != Some(x.generation));
                }
            }
        }
    }

    /// Replacing what a slot that is not free holds by something else that is not free, of the
    /// same generation, keeps the slab consistent.
    proof fn lemma_wf_replace(&self, new: Controls<T>, index: int)
        requires
            self.wf(),
            0 <= index < self.controls@.len(),
            !(self.controls@[index] is Free),
            !(new.controls@[index] is Free),
            entry_generation(new.controls@[index]) == entry_generation(self.controls@[index]),
            new.controls@ == self.controls@.update(index, new.controls@[index]),
            new.free_head == self.free_head,
            new.generation == self.generation,
            new.generation_counter == self.generation_counter,
            new.free_list == self.free_list,
            new.retired == self.retired,
        ensures
            new.wf(),
    {
        let fl = self.free_list@;
        assert forall|k: int| 0 <= k < fl.len() implies (#[trigger] fl[k]) != index by {
            assert(self.controls@[fl[k] as int] is Free);
        }
        assert forall|i: int|
            0 <= i < new.controls@.len() && (#[trigger] new.controls@[i]) is Free implies fl.contains(
                i as u32,
            ) by {
            assert(self.controls@[i] is Free);
        }
        assert forall|i: int| 0 <= i < new.controls@.len() implies entry_generation(
            #[trigger] new.controls@[i],
        ) == entry_generation(self.controls@[i]) by {
            if i != index {
                assert(new.controls@[i] == self.controls@[i]);
            }
        }
        self.lemma_retired_kept(new);
    }

    /// The control that `id` refers to, if `id` is valid.
    pub fn get(&self, id: Id) -> (res: Option<&Control<T>>)
        ensures
            match res {
                Some(c) => self.spec_get(id) == Some(*c),
                None => self.spec_get(id) is None,
            },
    {
        if (id.index as usize) < self.controls.len() {
            self.controls[id.index as usize].get(id)
        } else {
            None
        }
    }

    /// A mutable reference to the control that `id` refers to, if `id` is valid.
    pub fn get_mut(&mut self, id: Id) -> (res: Option<&mut Control<T>>)
        ensures
            match res {
                Some(c) => {
                    &&& old(self).spec_get(id) == Some(*c)
                    &&& old(self).wf() && final(c).generation == c.generation ==> final(self).wf()
                    &&& final(self).retired() == old(self).retired()
                    &&& final(self).entries() == old(self).entries().update(
                        id.index as int,
                        with_control(old(self).entries()[id.index as int], *final(c)),
                    )
                    &&& final(self).free_slots() == old(self).free_slots()
                    &&& final(self).current_generation() == old(self).current_generation()
                    &&& final(self).counter() == old(self).counter()
                },
                None => {
                    &&& old(self).spec_get(id) is None
                    &&& *final(self) == *old(self)
                },
            },
    {
        if self.get(id).is_none() {
            return None;
        }
        let ghost old_self = *self;
        let res = match &mut self.controls[id.index as usize] {
            ControlEntry::Builded { control } => Some(control),
            ControlEntry::Started { control } => Some(control),
            _ => None,
        };
        proof {
            assert forall|i: int|
                0 <= i < after_borrow(self).controls@.len() && (#[trigger] after_borrow(
                    self,
                ).controls@[i]) is Free implies old_self.controls@[i] is Free by {
                if i != id.index {
                    assert(after_borrow(self).controls@[i] == old_self.controls@[i]);
                }
            }
        }
        res
    }

    /// Reserve a slot for a new control, and return its Id. A freed slot is reused before the
    /// slab grows. The control is not alive until it is built in the slot.
    pub fn reserve(&mut self) -> (id: Id)
        requires
            old(self).wf(),
            old(self).free_slots().len() > 0 || old(self).entries().len() < u32::MAX,
        ensures
            final(self).wf(),
            id.generation == old(self).current_generation(),
            final(self).current_generation() == old(self).current_generation(),
            final(self).counter() == old(self).counter(),
            final(self).retired() == old(self).retired(),
            old(self).free_slots().len() > 0 ==> {
                &&& id.index == old(self).free_slots()[0]
                &&& final(self).entries().len() == old(self).entries().len()
                &&& final(self).free_slots() == old(self).free_slots().drop_first()
            },
            old(self).free_slots().len() == 0 ==> {
                &&& id.index == old(self).entries().len()
                &&& final(self).entries().len() == old(self).entries().len() + 1
                &&& final(self).free_slots() == old(self).free_slots()
            },
            final(self).entries()[id.index as int] matches ControlEntry::Reserved {
                generation,
                children,
            } && generation == id.generation && children@.len() == 0,
            forall|i: int|
                0 <= i < old(self).entries().len() && i != id.index ==> final(self).entries()[i]
                    == old(self).entries()[i],
            final(self).spec_get(id) is None,
            forall|x: Id| #[trigger] old(self).spec_get(x) is Some ==> x.index != id.index,
            forall|x: Id| #[trigger] old(self).retired().contains(x) ==> x != id,
    {
        let ghost fl = self.free_list@;
        if let Some(index) = self.free_head {
            assert(fl[0] == index);
            let next_free = match self.controls[index as usize] {
                ControlEntry::Free { free_next } => free_next,
                _ => {
                    assert(false);
                    None
                },
            };
            self.free_head = next_free;
            self.controls.set(
                index as usize,
                ControlEntry::Reserved { generation: self.generation, children: Vec::new() },
            );
            self.free_list = Ghost(fl.drop_first());
            proof {
                let nfl = fl.drop_first();
                assert forall|k: int| 0 <= k < nfl.len() implies {
                    &&& (#[trigger] nfl[k]) < self.controls@.len()
                    &&& self.controls@[nfl[k] as int] matches ControlEntry::Free { free_next }
                    &&& free_next == (if k + 1 < nfl.len() {
                        Some(nfl[k + 1])
                    } else {
                        None::<u32>
                    })
                } by {
                    assert(nfl[k] == fl[k + 1]);
                    assert(fl[k + 1] != fl[0]);
                }
                assert forall|i: int|
                    0 <= i < self.controls@.len() && (#[trigger] self.controls@[i]) is Free
                        implies nfl.contains(i as u32) by {
                    assert(i != index);
                    assert(fl.contains(i as u32));
                    let k = fl.index_of(i as u32);
                    assert(k != 0);
                    assert(nfl[k - 1] == i as u32);
                }
                assert forall|x: Id| #[trigger] old(self).spec_get(x) is Some implies x.index
                    != index by {
                    if x.index == index {
                        assert(old(self).controls@[index as int] is Free);
                    }
                }
            }
            Id { generation: self.generation, index }
        } else {
            self.controls.push(
                ControlEntry::Reserved { generation: self.generation, children: Vec::new() },
            );
            proof {
                assert forall|i: int|
                    0 <= i < self.controls@.len() && (#[trigger] self.controls@[i]) is Free
                        implies fl.contains(i as u32) by {
                    assert(old(self).controls@[i] is Free);
                }
            }
            Id { generation: self.generation, index: (self.controls.len() - 1) as u32 }
        }
    }

    /// Turn a reserved slot into a built control. The children that were built with this slot
    /// as parent while it was reserved are dropped with the reserved entry.
    pub fn add_builded_control(&mut self, id: Id, control: Control<T>)
        requires
            old(self).wf(),
            id.index < old(self).entries().len(),
            old(self).entries()[id.index as int] matches ControlEntry::Reserved { generation, .. }
                && generation == control.generation,
        ensures
            final(self).wf(),
            final(self).entries() == old(self).entries().update(
                id.index as int,
                ControlEntry::Builded { control },
            ),
            final(self).free_slots() == old(self).free_slots(),
            final(self).current_generation() == old(self).current_generation(),
            final(self).counter() == old(self).counter(),
            final(self).retired() == old(self).retired(),
    {
        let ghost fl = self.free_list@;
        self.controls.set(id.index as usize, ControlEntry::Builded { control });
        proof {
            assert forall|k: int| 0 <= k < fl.len() implies (#[trigger] fl[k]) != id.index by {
                assert(old(self).controls@[fl[k] as int] is Free);
            }
            assert forall|i: int|
                0 <= i < self.controls@.len() && (#[trigger] self.controls@[i]) is Free
                    implies fl.contains(i as u32) by {
                assert(old(self).controls@[i] is Free);
            }
        }
    }

    /// The retired Ids once the slot `index` is freed: none when the generation counter wraps
    /// around; else those retired so far, and the Id of what the slot held when it is of a
    /// generation handed out since the counter last wrapped (at most the current one).
    pub open spec fn retired_after_removal(&self, index: u32) -> Set<Id> {
        if self.current_generation() == u32::MAX {
            Set::empty()
        } else {
            match entry_generation(self.entries()[index as int]) {
                Some(g) => if g <= self.current_generation() {
                    self.retired().insert(Id { index, generation: g })
                } else {
                    self.retired()
                },
                None => self.retired(),
            }
        }
    }

    /// Free the slot of `id`, invalidating every Id that refers to it, and advance the
    /// generation, so the Ids that reserve hands out from now on differ from the earlier ones.
    pub fn remove(&mut self, id: Id)
        requires
            old(self).wf(),
            id.index < old(self).entries().len(),
            !(old(self).entries()[id.index as int] is Free),
        ensures
            final(self).wf(),
            final(self).free_slots() == seq![id.index].add(old(self).free_slots()),
            final(self).entries().len() == old(self).entries().len(),
            final(self).entries()[id.index as int] is Free,
            forall|i: int|
                0 <= i < old(self).entries().len() && i != id.index ==> final(self).entries()[i]
                    == old(self).entries()[i],
            (final(self).current_generation(), final(self).counter()) == spec_next_generation(
                old(self).counter(),
            ),
            final(self).current_generation() == (if old(self).current_generation() == u32::MAX {
                1
            } else {
                (old(self).current_generation() + 1) as u32
            }),
            forall|x: Id| x.index == id.index ==> #[trigger] final(self).spec_get(x) is None,
            forall|x: Id| x.index != id.index ==> #[trigger] final(self).spec_get(x) == old(self).spec_get(x),
            final(self).retired() == old(self).retired_after_removal(id.index),
    {
        let ghost fl = self.free_list@;
        let ghost retired = self.retired_after_removal(id.index);
        self.generation = next_generation(&mut self.generation_counter);
        self.retired = Ghost(retired);
        self.controls.set(id.index as usize, ControlEntry::Free { free_next: self.free_head });
        self.free_head = Some(id.index);
        self.free_list = Ghost(seq![id.index].add(fl));
        proof {
            let nfl = seq![id.index].add(fl);
            assert forall|k: int| 0 <= k < fl.len() implies (#[trigger] fl[k]) != id.index by {
                assert(old(self).controls@[fl[k] as int] is Free);
            }
            assert(nfl.no_duplicates()) by {
                assert forall|i: int, j: int|
                    0 <= i < nfl.len() && 0 <= j < nfl.len() && i != j implies nfl[i]
                    != nfl[j] by {
                    if i > 0 && j > 0 {
                        assert(nfl[i] == fl[i - 1]);
                        assert(nfl[j] == fl[j - 1]);
                    } else if i == 0 {
                        assert(nfl[j] == fl[j - 1]);
                    } else {
                        assert(nfl[i] == fl[i - 1]);
                    }
                }
            }
            assert forall|k: int| 0 <= k < nfl.len() implies {
                &&& (#[trigger] nfl[k]) < self.controls@.len()
                &&& self.controls@[nfl[k] as int] matches ControlEntry::Free { free_next }
                &&& free_next == (if k + 1 < nfl.len() {
                    Some(nfl[k + 1])
                } else {
                    None::<u32>
                })
            } by {
                if k > 0 {
                    assert(nfl[k] == fl[k - 1]);
                    assert(fl[k - 1] != id.index);
                }
            }
            assert forall|i: int|
                0 <= i < self.controls@.len() && (#[trigger] self.controls@[i]) is Free
                    implies nfl.contains(i as u32) by {
                if i == id.index {
                    assert(nfl[0] == i as u32);
                } else {
                    assert(old(self).controls@[i] is Free);
                    let k = fl.index_of(i as u32);
                    assert(nfl[k + 1] == i as u32);
                }
            }
        }
    }

    /// A stale Id never becomes valid again: an Id whose control was removed, since the
    /// generation counter last wrapped around, refers to no control and to no reserved slot,
    /// however the slab changed since.
    pub proof fn lemma_retired_stays_invalid(&self, x: Id)
        requires
            self.wf(),
            self.retired().contains(x),
        ensures
            self.spec_get(x) is None,
            x.generation < self.current_generation(),
            !(x.index < self.entries().len() && self.entries()[x.index as int] is Reserved
                && reserved_generation(self.entries()[x.index as int]) == x.generation),
    {
    }

    /// Removing a valid control, whose Id is of a generation handed out since the counter last
    /// wrapped around, retires its Id (unless this very removal wraps the counter around).
    pub proof fn lemma_remove_retires(&self, after: Controls<T>, id: Id)
        requires
            self.spec_get(id) is Some,
            id.generation <= self.current_generation(),
            self.current_generation() < u32::MAX,
            after.retired() == self.retired_after_removal(id.index),
        ensures
            after.retired().contains(id),
    {
        assert(entry_generation(self.entries()[id.index as int]) == Some(id.generation));
        assert(Id { index: id.index, generation: id.generation } == id);
    }

    /// Mark the built control of `id` as started. Returns false, changing nothing, when `id` is
    /// not valid or its control was already started.
    #[verifier::spinoff_prover]
    pub fn start(&mut self, id: Id) -> (started: bool)
        requires
            old(self).wf(),
        ensures
            final(self).wf(),
            started == (old(self).spec_get(id) is Some && old(self).entries()[id.index as int] is Builded),
            started ==> final(self).entries() == old(self).entries().update(
                id.index as int,
                ControlEntry::Started { control: old(self).spec_get(id)->0 },
            ),
            !started ==> final(self).entries() == old(self).entries(),
            final(self).free_slots() == old(self).free_slots(),
            final(self).current_generation() == old(self).current_generation(),
            final(self).counter() == old(self).counter(),
            final(self).retired() == old(self).retired(),
    {
        if self.get(id).is_none() {
            return false;
        }
        let i = id.index as usize;
        let is_builded = match &self.controls[i] {
            ControlEntry::Builded { .. } => true,
            _ => false,
        };
        if !is_builded {
            return false;
        }
        let ghost fl = self.free_list@;
        let entry = self.controls.remove(i);
        match entry {
            ControlEntry::Builded { control } => {
                self.controls.insert(i, ControlEntry::Started { control });
            },
            _ => {
                assert(false);
            },
        }
        proof {
            assert(self.controls@ =~= old(self).controls@.update(
                i as int,
                ControlEntry::Started { control: old(self).spec_get(id)->0 },
            ));
            assert forall|i: int|
                0 <= i < self.controls@.len() && (#[trigger] self.controls@[i]) is Free
                    implies fl.contains(i as u32) by {
                assert(old(self).controls@[i] is Free);
            }
            assert forall|k: int| 0 <= k < fl.len() implies (#[trigger] fl[k]) != id.index by {
                assert(old(self).controls@[fl[k] as int] is Free);
            }
        }
        true
    }

    /// The parent of the control `id` refers to; `None` when it has none or `id` is not valid.
    pub open spec fn parent_of(&self, id: Id) -> Option<Id> {
        match self.spec_get(id) {
            Some(c) => c.parent,
            None => None,
        }
    }

    /// Following parents from `id` reaches, within `n` steps, an Id with no parent (or an Id
    /// that is not valid).
    pub open spec fn chain_ends_within(&self, id: Id, n: nat) -> bool
        decreases n,
    {
        match self.parent_of(id) {
            None => true,
            Some(p) => n > 0 && self.chain_ends_within(p, (n - 1) as nat),
        }
    }

    /// The first `n` steps of the chain of parents above `id`, nearest first.
    pub open spec fn ancestors_within(&self, id: Id, n: nat) -> Seq<Id>
        decreases n,
    {
        match self.parent_of(id) {
            None => Seq::empty(),
            Some(p) => if n == 0 {
                Seq::empty()
            } else {
                seq![p] + self.ancestors_within(p, (n - 1) as nat)
            },
        }
    }

    /// The chain of parents from `id` is finite.
    pub open spec fn chain_ends(&self, id: Id) -> bool {
        exists|n: nat| self.chain_ends_within(id, n)
    }

    /// The whole chain of parents above `id`, nearest first (for an `id` whose chain ends).
    pub open spec fn ancestors(&self, id: Id) -> Seq<Id> {
        self.ancestors_within(id, choose|n: nat| self.chain_ends_within(id, n))
    }

    /// `id` is valid, its chain of parents is finite, and every Id on it is valid.
    pub open spec fn well_rooted(&self, id: Id) -> bool {
        &&& self.spec_get(id) is Some
        &&& self.chain_ends(id)
        &&& forall|i: int|
            0 <= i < self.ancestors(id).len() ==> (#[trigger] self.spec_get(self.ancestors(id)[i])) is Some
    }

    /// `id` followed by its ancestors, up to the root of its tree.
    pub open spec fn control_stack(&self, id: Id) -> Seq<Id> {
        seq![id] + self.ancestors(id)
    }

    /// A longer walk up a finite chain finds the same ancestors.
    pub proof fn lemma_chain_monotone(&self, id: Id, n: nat, m: nat)
        requires
            self.chain_ends_within(id, n),
            n <= m,
        ensures
            self.chain_ends_within(id, m),
            self.ancestors_within(id, n) == self.ancestors_within(id, m),
        decreases n,
    {
        if let Some(p) = self.parent_of(id) {
            self.lemma_chain_monotone(p, (n - 1) as nat, (m - 1) as nat);
        }
    }

    /// Any walk long enough to end the chain finds all the ancestors.
    pub proof fn lemma_ancestors_within(&self, id: Id, n: nat)
        requires
            self.chain_ends_within(id, n),
        ensures
            self.chain_ends(id),
            self.ancestors_within(id, n) == self.ancestors(id),
    {
        let m = choose|m: nat| self.chain_ends_within(id, m);
        if n <= m {
            self.lemma_chain_monotone(id, n, m);
        } else {
            self.lemma_chain_monotone(id, m, n);
        }
    }

    /// The ancestors of `id` are its parent followed by the ancestors of the parent.
    pub proof fn lemma_ancestors_unfold(&self, id: Id)
        requires
            self.chain_ends(id),
        ensures
            self.parent_of(id) is None ==> self.ancestors(id) == Seq::<Id>::empty(),
            self.parent_of(id) matches Some(p) ==> self.chain_ends(p) && self.ancestors(id) == seq![p] + self.ancestors(p),
    {
        let n = choose|n: nat| self.chain_ends_within(id, n);
        if let Some(p) = self.parent_of(id) {
            self.lemma_ancestors_within(p, (n - 1) as nat);
        }
    }

    /// `Some(parent)` is the parent of the control `child` refers to.
    pub fn is_child(&self, parent: Id, child: Id) -> (res: bool)
        ensures
            res == (self.parent_of(child) == Some(parent)),
    {
        match self.get(child) {
            Some(c) => c.parent == Some(parent),
            None => false,
        }
    }

    /// `ascendant` is on the chain of parents above `descendant`.
    pub fn is_descendant(&self, ascendant: Id, descendant: Id) -> (res: bool)
        requires
            self.chain_ends(descendant),
        ensures
            res == self.ancestors(descendant).contains(ascendant),
    {
        let ghost n0 = choose|n: nat| self.chain_ends_within(descendant, n);
        let ghost mut n = n0;
        let ghost mut seen: Seq<Id> = Seq::empty();
        let mut curr = descendant;
        loop
            invariant
                self.chain_ends_within(curr, n),
                seen + self.ancestors_within(curr, n) == self.ancestors(descendant),
                !seen.contains(ascendant),
            decreases n,
        {
            let parent = match self.get(curr) {
                Some(c) => c.parent,
                None => None,
            };
            match parent {
                Some(p) => {
                    proof {
                        assert(self.ancestors_within(curr, n) == seq![p] + self.ancestors_within(
                            p,
                            (n - 1) as nat,
                        ));
                    }
                    if p == ascendant {
                        proof {
                            let full = self.ancestors(descendant);
                            assert(full[seen.len() as int] == p);
                        }
                        return true;
                    }
                    proof {
                        assert(seen.push(p) + self.ancestors_within(p, (n - 1) as nat) =~= seen
                            + self.ancestors_within(curr, n));
                        assert(!seen.push(p).contains(ascendant)) by {
                            if seen.push(p).contains(ascendant) {
                                let k = choose|k: int| 0 <= k < seen.push(p).len() && seen.push(p)[k] == ascendant;
                                assert(k < seen.len());
                            }
                        }
                        seen = seen.push(p);
                        n = (n - 1) as nat;
                    }
                    curr = p;
                },
                None => {
                    proof {
                        assert(seen =~= self.ancestors(descendant));
                    }
                    return false;
                },
            }
        }
    }

    /// `id` followed by its ancestors, up to the root of its tree; `None` if `id` is not valid.
    pub fn get_control_stack(&self, id: Id) -> (res: Option<Vec<Id>>)
        requires
            self.spec_get(id) is None || self.well_rooted(id),
        ensures
            match res {
                None => self.spec_get(id) is None,
                Some(stack) => self.spec_get(id) is Some && stack@ == self.control_stack(id),
            },
    {
        if self.get(id).is_none() {
            return None;
        }
        let ghost n0 = choose|n: nat| self.chain_ends_within(id, n);
        let ghost mut n = n0;
        let mut curr = id;
        let mut stack: Vec<Id> = Vec::new();
        stack.push(curr);
        loop
            invariant
                self.well_rooted(id),
                n0 == choose|n: nat| self.chain_ends_within(id, n),
                self.chain_ends_within(curr, n),
                self.spec_get(curr) is Some,
                stack@.len() >= 1,
                stack@.last() == curr,
                stack@ + self.ancestors_within(curr, n) == self.control_stack(id),
            decreases n,
        {
            let c = match self.get(curr) {
                Some(c) => c,
                None => {
                    assert(false);
                    return None;
                },
            };
            match c.parent {
                Some(p) => {
                    proof {
                        let k = (stack@.len() - 1) as int;
                        assert(self.control_stack(id)[k + 1] == p);
                        let anc = self.ancestors(id);
                        let tail = self.ancestors_within(curr, n);
                        assert(tail.len() >= 1);
                        assert((stack@ + tail).len() == stack@.len() + tail.len());
                        assert(self.control_stack(id).len() == 1 + anc.len());
                        assert(k + 1 < self.control_stack(id).len());
                        assert((seq![id] + anc)[k + 1] == anc[k]);
                        assert(self.ancestors(id)[k] == p);
                        assert(self.spec_get(self.ancestors(id)[k]) is Some);
                        assert(stack@.push(p) + self.ancestors_within(p, (n - 1) as nat) =~= stack@
                            + self.ancestors_within(curr, n));
                        n = (n - 1) as nat;
                    }
                    curr = p;
                    stack.push(curr);
                },
                None => {
                    assert(stack@ =~= self.control_stack(id));
                    return Some(stack);
                },
            }
        }
    }

    /// `self` is `old` with the children of the control `p` refers to replaced by `children`.
    pub open spec fn children_replaced(&self, old: Self, p: Id, children: Seq<Id>) -> bool {
        &&& self.entries().len() == old.entries().len()
        &&& p.index < old.entries().len()
        &&& forall|j: int|
            0 <= j < old.entries().len() && j != p.index ==> self.entries()[j] == old.entries()[j]
        &&& (self.entries()[p.index as int] is Started) == (old.entries()[p.index as int] is Started)
        &&& self.spec_get(p) matches Some(nc) && old.spec_get(p) matches Some(oc) && {
            &&& nc.children@ == children
            &&& nc.generation == oc.generation
            &&& nc.data == oc.data
            &&& nc.parent == oc.parent
            &&& nc.active == oc.active
            &&& nc.focus == oc.focus
            &&& nc.really_active == oc.really_active
        }
    }

    /// The Ids of `s` whose controls are active, in order.
    pub open spec fn active_filter(&self, s: Seq<Id>) -> Seq<Id>
        decreases s.len(),
    {
        if s.len() == 0 {
            Seq::empty()
        } else {
            let rest = self.active_filter(s.drop_last());
            if self.spec_get(s.last()) matches Some(c) && c.active {
                rest.push(s.last())
            } else {
                rest
            }
        }
    }

    /// Every Id of `s` is valid.
    pub open spec fn all_valid(&self, s: Seq<Id>) -> bool {
        forall|i: int| 0 <= i < s.len() ==> (#[trigger] self.spec_get(s[i])) is Some
    }

    /// The active children of the control `id` refers to.
    pub open spec fn active_children(&self, id: Id) -> Seq<Id> {
        self.active_filter(self.spec_get(id)->0.children@)
    }

    /// The children of the control `id` refers to, active or not.
    pub fn get_all_children(&self, id: Id) -> (res: Option<&[Id]>)
        ensures
            match res {
                None => self.spec_get(id) is None,
                Some(children) => self.spec_get(id) matches Some(c) && children@ == c.children@,
            },
    {
        match self.get(id) {
            Some(c) => Some(c.children.as_slice()),
            None => None,
        }
    }

    /// The children of the control `id` refers to that are active, in order.
    pub fn get_active_children(&self, id: Id) -> (res: Option<Vec<Id>>)
        requires
            self.spec_get(id) matches Some(c) ==> self.all_valid(c.children@),
        ensures
            match res {
                None => self.spec_get(id) is None,
                Some(children) => self.spec_get(id) is Some && children@ == self.active_children(id),
            },
    {
        let c = match self.get(id) {
            Some(c) => c,
            None => return None,
        };
        let mut res: Vec<Id> = Vec::new();
        let mut i: usize = 0;
        while i < c.children.len()
            invariant
                self.spec_get(id) == Some(*c),
                self.all_valid(c.children@),
                i <= c.children@.len(),
                res@ == self.active_filter(c.children@.take(i as int)),
            decreases c.children@.len() - i,
        {
            let child = c.children[i];
            assert(c.children@.take(i + 1).drop_last() =~= c.children@.take(i as int));
            assert(self.spec_get(c.children@[i as int]) is Some);
            let active = match self.get(child) {
                Some(x) => x.active,
                None => {
                    assert(false);
                    false
                },
            };
            if active {
                res.push(child);
            }
            i = i + 1;
        }
        assert(c.children@.take(i as int) =~= c.children@);
        Some(res)
    }

    /// Move the control `id` to the last position among the children of its parent, making it
    /// render in front of all of its siblings.
    pub fn move_to_front(&mut self, id: Id)
        requires
            old(self).wf(),
            old(self).parent_of(id) matches Some(p) ==> old(self).spec_get(p) matches Some(pc)
                && pc.children@.contains(id),
        ensures
            final(self).wf(),
            final(self).free_slots() == old(self).free_slots(),
            final(self).current_generation() == old(self).current_generation(),
            final(self).counter() == old(self).counter(),
            final(self).retired() == old(self).retired(),
            match old(self).parent_of(id) {
                None => final(self).entries() == old(self).entries(),
                Some(p) => {
                    let pc = old(self).spec_get(p)->0;
                    let i = first_index(pc.children@, id);
                    final(self).children_replaced(*old(self), p, moved_to_end(pc.children@, i))
                },
            },
    {
        let parent = match self.get(id) {
            Some(c) => c.parent,
            None => None,
        };
        if let Some(p) = parent {
            let ghost pc = self.spec_get(p)->0;
            let i = self.position_of_child(p, id);
            let c = self.get_mut(p).unwrap();
            let child = c.children.remove(i);
            c.children.push(child);
            proof {
                assert(c.children@ =~= moved_to_end(pc.children@, i as int));
            }
        }
    }

    /// Move the control `id` to the first position among the children of its parent, making it
    /// render behind all of its siblings.
    pub fn move_to_back(&mut self, id: Id)
        requires
            old(self).wf(),
            old(self).parent_of(id) matches Some(p) ==> old(self).spec_get(p) matches Some(pc)
                && pc.children@.contains(id),
        ensures
            final(self).wf(),
            final(self).free_slots() == old(self).free_slots(),
            final(self).current_generation() == old(self).current_generation(),
            final(self).counter() == old(self).counter(),
            final(self).retired() == old(self).retired(),
            match old(self).parent_of(id) {
                None => final(self).entries() == old(self).entries(),
                Some(p) => {
                    let pc = old(self).spec_get(p)->0;
                    let i = first_index(pc.children@, id);
                    final(self).children_replaced(*old(self), p, moved_to_start(pc.children@, i))
                },
            },
    {
        let parent = match self.get(id) {
            Some(c) => c.parent,
            None => None,
        };
        if let Some(p) = parent {
            let ghost pc = self.spec_get(p)->0;
            let i = self.position_of_child(p, id);
            let c = self.get_mut(p).unwrap();
            let child = c.children.remove(i);
            c.children.insert(0, child);
            proof {
                assert(c.children@ =~= moved_to_start(pc.children@, i as int));
            }
        }
    }

    /// Take the control `id` out of the children of its parent, as a removal does first. The
    /// control itself keeps its entry and its link to the parent.
    pub fn detach(&mut self, id: Id)
        requires
            old(self).wf(),
            old(self).parent_of(id) matches Some(p) ==> old(self).spec_get(p) matches Some(pc)
                && pc.children@.contains(id),
        ensures
            final(self).wf(),
            final(self).free_slots() == old(self).free_slots(),
            final(self).current_generation() == old(self).current_generation(),
            final(self).counter() == old(self).counter(),
            final(self).retired() == old(self).retired(),
            match old(self).parent_of(id) {
                None => final(self).entries() == old(self).entries(),
                Some(p) => {
                    let pc = old(self).spec_get(p)->0;
                    let i = first_index(pc.children@, id);
                    final(self).children_replaced(*old(self), p, pc.children@.remove(i))
                },
            },
    {
        let parent = match self.get(id) {
            Some(c) => c.parent,
            None => None,
        };
        if let Some(p) = parent {
            let i = self.position_of_child(p, id);
            let c = self.get_mut(p).unwrap();
            c.children.remove(i);
        }
    }

    /// The position of the first occurrence of `child` among the children of `parent`.
    fn position_of_child(&self, parent: Id, child: Id) -> (i: usize)
        requires
            self.spec_get(parent) matches Some(pc) && pc.children@.contains(child),
        ensures
            i == first_index(self.spec_get(parent)->0.children@, child),
            i < self.spec_get(parent)->0.children@.len(),
            self.spec_get(parent)->0.children@[i as int] == child,
    {
        let c = self.get(parent).unwrap();
        find_first(&c.children, child)
    }

    /// The lowest control that is an ancestor (or the control itself) of both `a` and `b`.
    /// This is used to only update the focus flag of the controls that changed. There is one
    /// when both are valid and their chains of parents end at the same control, as they do at
    /// the root for controls added under it; none when the chains end at different controls.
    pub fn lowest_common_ancestor(&self, a: Id, b: Id) -> (res: Option<Id>)
        requires
            self.spec_get(a) is None || self.well_rooted(a),
            self.spec_get(b) is None || self.well_rooted(b),
        ensures
            res == (if self.spec_get(a) is None || self.spec_get(b) is None {
                None
            } else {
                deepest_common(self.control_stack(a), self.control_stack(b))
            }),
            self.spec_get(a) is Some && self.spec_get(b) is Some && self.control_stack(a).last()
                == self.control_stack(b).last() ==> res is Some,
    {
        proof {
            if self.spec_get(a) is Some && self.spec_get(b) is Some {
                self.lemma_lowest_common_ancestor(a, b);
            }
        }
        let a_stack = match self.get_control_stack(a) {
            Some(s) => s,
            None => return None,
        };
        let b_stack = match self.get_control_stack(b) {
            Some(s) => s,
            None => return None,
        };
        let ghost x = a_stack@;
        let ghost y = b_stack@;
        let alen = a_stack.len();
        let blen = b_stack.len();
        let mut i: usize = 0;
        while i < alen && i < blen && a_stack[alen - 1 - i] == b_stack[blen - 1 - i]
            invariant
                x == a_stack@,
                y == b_stack@,
                alen == x.len(),
                blen == y.len(),
                i <= alen,
                i <= blen,
                forall|j: int| 0 <= j < i ==> #[trigger] ends_match(x, y, j),
            decreases alen - i,
        {
            i = i + 1;
        }
        proof {
            lemma_common_suffix_len(x, y, i as int);
            let xt = x.take(x.len() - i);
            let yt = y.take(y.len() - i);
            if xt.len() > 0 && yt.len() > 0 {
                assert(xt.last() == x[x.len() - 1 - i]);
                assert(yt.last() == y[y.len() - 1 - i]);
            }
        }
        if i == 0 {
            None
        } else {
            Some(a_stack[alen - i])
        }
    }

    /// Every control from `id` up to the root of its tree is valid and active, and is among
    /// the active children of its parent, whose children are all valid; within `n` steps.
    pub open spec fn tree_ready_within(&self, id: Id, n: nat) -> bool
        decreases n,
    {
        &&& self.spec_get(id) matches Some(c) && c.active
        &&& match self.parent_of(id) {
            None => true,
            Some(p) => {
                &&& n > 0
                &&& self.spec_get(p) matches Some(pc) && self.all_valid(pc.children@)
                &&& self.active_children(p).contains(id)
                &&& self.tree_ready_within(p, (n - 1) as nat)
            },
        }
    }

    /// `tree_ready_within` for some number of steps.
    pub open spec fn tree_ready(&self, id: Id) -> bool {
        exists|n: nat| self.tree_ready_within(id, n)
    }

    /// The stack of a depth-first walk of the active controls at the moment `id` is next: in
    /// order (`reverse` false) or in reverse order (`reverse` true).
    pub open spec fn walk_stack_within(&self, id: Id, n: nat, reverse: bool) -> Seq<Id>
        decreases n,
    {
        match self.parent_of(id) {
            None => seq![id],
            Some(p) => if n == 0 {
                seq![id]
            } else {
                let up = self.walk_stack_within(p, (n - 1) as nat, reverse);
                let ch = self.active_children(p);
                let i = first_index(ch, id);
                if reverse {
                    up.drop_last() + ch.subrange(0, i + 1)
                } else {
                    up.drop_last() + ch.subrange(i, ch.len() as int).reverse()
                }
            },
        }
    }

    /// The stack of the walk, for an `id` whose tree is ready.
    pub open spec fn walk_stack(&self, id: Id, reverse: bool) -> Seq<Id> {
        self.walk_stack_within(id, choose|n: nat| self.tree_ready_within(id, n), reverse)
    }

    proof fn lemma_walk_monotone(&self, id: Id, n: nat, m: nat, reverse: bool)
        requires
            self.tree_ready_within(id, n),
            n <= m,
        ensures
            self.tree_ready_within(id, m),
            self.walk_stack_within(id, n, reverse) == self.walk_stack_within(id, m, reverse),
            self.walk_stack_within(id, n, reverse).len() > 0,
        decreases n,
    {
        if let Some(p) = self.parent_of(id) {
            self.lemma_walk_monotone(p, (n - 1) as nat, (m - 1) as nat, reverse);
            let ch = self.active_children(p);
            lemma_first_index(ch, id);
        }
    }

    proof fn lemma_walk_any(&self, id: Id, n: nat, reverse: bool)
        requires
            self.tree_ready_within(id, n),
        ensures
            self.walk_stack_within(id, n, reverse) == self.walk_stack(id, reverse),
            self.walk_stack(id, reverse).len() > 0,
    {
        let m = choose|m: nat| self.tree_ready_within(id, m);
        if n <= m {
            self.lemma_walk_monotone(id, n, m, reverse);
        } else {
            self.lemma_walk_monotone(id, m, n, reverse);
        }
    }

    fn walk_stack_exec(&self, id: Id, Ghost(n): Ghost<nat>, reverse: bool) -> (res: Vec<Id>)
        requires
            self.tree_ready_within(id, n),
        ensures
            res@ == self.walk_stack_within(id, n, reverse),
        decreases n,
    {
        let c = self.get(id).unwrap();
        match c.parent {
            Some(p) => {
                let mut up = self.walk_stack_exec(p, Ghost((n - 1) as nat), reverse);
                proof {
                    self.lemma_walk_monotone(p, (n - 1) as nat, (n - 1) as nat, reverse);
                }
                let ghost up0 = up@;
                up.pop();
                let children = self.get_active_children(p).unwrap();
                let ghost ch = children@;
                let i = find_first(&children, id);
                let clen = children.len();
                if reverse {
                    let mut j: usize = 0;
                    while j <= i
                        invariant
                            ch == children@,
                            clen == ch.len(),
                            up0.len() > 0,
                            i < ch.len(),
                            j <= i + 1,
                            up@ == up0.drop_last() + ch.subrange(0, j as int),
                        decreases i + 1 - j,
                    {
                        up.push(children[j]);
                        assert(up0.drop_last() + ch.subrange(0, j + 1) =~= (up0.drop_last()
                            + ch.subrange(0, j as int)).push(ch[j as int]));
                        j = j + 1;
                    }
                } else {
                    let mut j: usize = children.len();
                    while j > i
                        invariant
                            ch == children@,
                            up0.len() > 0,
                            i < ch.len(),
                            i <= j <= ch.len(),
                            up@ == up0.drop_last() + ch.subrange(j as int, ch.len() as int).reverse(),
                        decreases j,
                    {
                        j = j - 1;
                        up.push(children[j]);
                        assert(ch.subrange(j as int, ch.len() as int).reverse() =~= ch.subrange(
                            j + 1,
                            ch.len() as int,
                        ).reverse().push(ch[j as int]));
                        assert(up0.drop_last() + ch.subrange(j as int, ch.len() as int).reverse()
                            =~= (up0.drop_last() + ch.subrange(j + 1, ch.len() as int).reverse()).push(
                            ch[j as int],
                        ));
                    }
                }
                up
            },
            None => {
                let mut v: Vec<Id> = Vec::new();
                v.push(id);
                assert(v@ =~= seq![id]);
                v
            },
        }
    }

    /// The state of the stack used to walk the tree in order, when the next control is `id`.
    pub fn tree_starting_at(&self, id: Id) -> (res: Option<Vec<Id>>)
        requires
            self.tree_ready(id),
        ensures
            res matches Some(stack) && stack@ == self.walk_stack(id, false),
    {
        let ghost n = choose|n: nat| self.tree_ready_within(id, n);
        Some(self.walk_stack_exec(id, Ghost(n), false))
    }

    /// The state of the stack used to walk the tree in reverse order, when the next control is
    /// `id`.
    pub fn rev_tree_starting_at(&self, id: Id) -> (res: Option<Vec<Id>>)
        requires
            self.tree_ready(id),
        ensures
            res matches Some(stack) && stack@ == self.walk_stack(id, true),
    {
        let ghost n = choose|n: nat| self.tree_ready_within(id, n);
        Some(self.walk_stack_exec(id, Ghost(n), true))
    }

    /// Take the children that were built with the reserved slot `index` as their parent.
    #[verifier::spinoff_prover]
    #[verifier::rlimit(40)]
    fn take_reserved_children(&mut self, index: u32) -> (children: Vec<Id>)
        requires
            old(self).wf(),
            index < old(self).entries().len(),
            old(self).entries()[index as int] is Reserved,
        ensures
            final(self).wf(),
            old(self).entries()[index as int] matches ControlEntry::Reserved { children: c, .. }
                && children@ == c@,
            final(self).entries().len() == old(self).entries().len(),
            final(self).entries()[index as int] matches ControlEntry::Reserved { generation, children: c }
                && c@.len() == 0 && reserved_generation(old(self).entries()[index as int]) == generation,
            forall|j: int|
                0 <= j < old(self).entries().len() && j != index ==> final(self).entries()[j]
                    == old(self).entries()[j],
            final(self).free_slots() == old(self).free_slots(),
            final(self).current_generation() == old(self).current_generation(),
            final(self).counter() == old(self).counter(),
            final(self).retired() == old(self).retired(),
    {
        let ghost fl = self.free_list@;
        let entry = self.controls.remove(index as usize);
        let (generation, children) = match entry {
            ControlEntry::Reserved { generation, children } => (generation, children),
            _ => {
                assert(false);
                (0, Vec::new())
            },
        };
        self.controls.insert(index as usize, ControlEntry::Reserved { generation, children: Vec::new() });
        proof {
            assert(self.controls@ =~= old(self).controls@.update(index as int, self.controls@[index as int]));
            old(self).lemma_wf_replace(*self, index as int);
        }
        children
    }

    /// Register `child` with whatever control (built or reserved) occupies the slot `index`.
    #[verifier::spinoff_prover]
    #[verifier::rlimit(40)]
    fn add_child_at(&mut self, index: u32, child: Id)
        requires
            old(self).wf(),
            index < old(self).entries().len(),
            !(old(self).entries()[index as int] is Free),
        ensures
            final(self).wf(),
            final(self).entries().len() == old(self).entries().len(),
            child_added(old(self).entries()[index as int], final(self).entries()[index as int], child),
            forall|j: int|
                0 <= j < old(self).entries().len() && j != index ==> final(self).entries()[j]
                    == old(self).entries()[j],
            final(self).free_slots() == old(self).free_slots(),
            final(self).current_generation() == old(self).current_generation(),
            final(self).counter() == old(self).counter(),
            final(self).retired() == old(self).retired(),
    {
        let ghost fl = self.free_list@;
        let entry = self.controls.remove(index as usize);
        let new_entry = match entry {
            ControlEntry::Reserved { generation, mut children } => {
                children.push(child);
                ControlEntry::Reserved { generation, children }
            },
            ControlEntry::Builded { mut control } => {
                control.add_child(child);
                ControlEntry::Builded { control }
            },
            ControlEntry::Started { mut control } => {
                control.add_child(child);
                ControlEntry::Started { control }
            },
            ControlEntry::Free { free_next } => {
                assert(false);
                ControlEntry::Free { free_next }
            },
        };
        self.controls.insert(index as usize, new_entry);
        proof {
            assert(self.controls@ =~= old(self).controls@.update(index as int, self.controls@[index as int]));
            old(self).lemma_wf_replace(*self, index as int);
        }
    }

    /// From any position on, the stack of a control is the stack of the control found there.
    pub proof fn lemma_stack_tail(&self, id: Id, i: int)
        requires
            self.chain_ends(id),
            0 <= i < self.control_stack(id).len(),
        ensures
            self.chain_ends(self.control_stack(id)[i]),
            self.control_stack(id).skip(i) == self.control_stack(self.control_stack(id)[i]),
        decreases i,
    {
        self.lemma_ancestors_unfold(id);
        if i == 0 {
            assert(self.control_stack(id).skip(0) =~= self.control_stack(id));
        } else {
            let p = self.parent_of(id)->0;
            assert(self.control_stack(id) =~= seq![id] + self.control_stack(p));
            self.lemma_stack_tail(p, i - 1);
            assert(self.control_stack(id)[i] == self.control_stack(p)[i - 1]);
            assert(self.control_stack(id).skip(i) =~= self.control_stack(p).skip(i - 1));
        }
    }

    /// The lowest common ancestor is an ancestor (or the control itself) of both controls, and
    /// every control that is an ancestor-or-self of both is an ancestor-or-self of it. When there
    /// is none, the two controls have no ancestor-or-self in common; there is one whenever their
    /// chains of parents end at the same control (the root, for controls added under it). It
    /// does not depend on the order of the two controls, and that of a control with itself is
    /// the control.
    pub proof fn lemma_lowest_common_ancestor(&self, a: Id, b: Id)
        requires
            self.chain_ends(a),
            self.chain_ends(b),
        ensures
            match deepest_common(self.control_stack(a), self.control_stack(b)) {
                Some(l) => {
                    &&& self.control_stack(a).contains(l)
                    &&& self.control_stack(b).contains(l)
                    &&& self.chain_ends(l)
                    &&& forall|x: Id|
                        self.control_stack(a).contains(x) && self.control_stack(b).contains(x)
                            ==> #[trigger] self.control_stack(l).contains(x)
                },
                None => forall|x: Id|
                    !(#[trigger] self.control_stack(a).contains(x) && self.control_stack(b).contains(x)),
            },
            self.control_stack(a).last() == self.control_stack(b).last() ==> deepest_common(
                self.control_stack(a),
                self.control_stack(b),
            ) is Some,
            deepest_common(self.control_stack(a), self.control_stack(b)) == deepest_common(
                self.control_stack(b),
                self.control_stack(a),
            ),
            deepest_common(self.control_stack(a), self.control_stack(a)) == Some(a),
    {
        lemma_common_suffix_sym(self.control_stack(a), self.control_stack(b));
        lemma_common_suffix_sym(self.control_stack(a), self.control_stack(a));
        let sa = self.control_stack(a);
        let sb = self.control_stack(b);
        lemma_common_suffix_props(sa, sb);
        let k = common_suffix_len(sa, sb);
        assert forall|x: Id| sa.contains(x) && sb.contains(x) implies k >= 1 && sa.len() - k
            <= sa.index_of(x) by {
            let i = sa.index_of(x);
            let j = sb.index_of(x);
            self.lemma_stack_tail(a, i);
            self.lemma_stack_tail(b, j);
            let m = self.control_stack(x).len();
            assert(sa.skip(i) == sb.skip(j));
            assert forall|t: int| 0 <= t < m implies #[trigger] ends_match(sa, sb, t) by {
                assert(sa[sa.len() - 1 - t] == sa.skip(i)[m - 1 - t]);
                assert(sb[sb.len() - 1 - t] == sb.skip(j)[m - 1 - t]);
            }
            if k < m {
                assert(ends_match(sa, sb, k as int));
            }
        }
        if k >= 1 {
            let l = sa[sa.len() - k];
            assert(ends_match(sa, sb, k - 1));
            assert(sb[sb.len() - k] == l);
            self.lemma_stack_tail(a, sa.len() - k);
            assert forall|x: Id|
                sa.contains(x) && sb.contains(x) implies #[trigger] self.control_stack(l).contains(x) by {
                let i = sa.index_of(x);
                assert(self.control_stack(l)[i - (sa.len() - k)] == sa.skip(sa.len() - k)[i - (sa.len() - k)]);
            }
        }
    }

    /// In the stack of a walk, the control that comes next is `id` itself.
    pub proof fn lemma_walk_next(&self, id: Id, reverse: bool)
        requires
            self.tree_ready(id),
        ensures
            self.walk_stack(id, reverse).len() > 0,
            self.walk_stack(id, reverse).last() == id,
    {
        let n = choose|n: nat| self.tree_ready_within(id, n);
        self.lemma_walk_any(id, n, reverse);
        self.lemma_walk_last(id, n, reverse);
    }

    proof fn lemma_walk_last(&self, id: Id, n: nat, reverse: bool)
        requires
            self.tree_ready_within(id, n),
        ensures
            self.walk_stack_within(id, n, reverse).last() == id,
    {
        self.lemma_walk_monotone(id, n, n, reverse);
        if let Some(p) = self.parent_of(id) {
            let ch = self.active_children(p);
            lemma_first_index(ch, id);
            self.lemma_walk_monotone(p, (n - 1) as nat, (n - 1) as nat, reverse);
        }
    }

    /// The controls that lose and gain focus when the focus moves from `current` to `next`:
    /// those that lose it are `current` and its ancestors below the lowest common ancestor of
    /// both, nearest first; those that gain it are `next` and all its ancestors, nearest first.
    pub open spec fn spec_focus_change(&self, current: Option<Id>, next: Option<Id>) -> (Seq<Id>, Seq<Id>) {
        if current == next {
            (Seq::empty(), Seq::empty())
        } else {
            let lost = match current {
                Some(c) => match next {
                    Some(n) => {
                        let sa = self.control_stack(c);
                        sa.take(sa.len() - common_suffix_len(sa, self.control_stack(n)))
                    },
                    None => self.control_stack(c),
                },
                None => Seq::empty(),
            };
            let gained = match next {
                Some(n) => self.control_stack(n),
                None => Seq::empty(),
            };
            (lost, gained)
        }
    }

    /// The controls whose focus changes when the focus moves from `current` to `next`, in the
    /// order they are told: first those that lose it, then those that gain it.
    pub fn focus_change(&self, current: Option<Id>, next: Option<Id>) -> (res: (Vec<Id>, Vec<Id>))
        requires
            current matches Some(c) ==> self.well_rooted(c),
            next matches Some(n) ==> self.well_rooted(n),
        ensures
            (res.0@, res.1@) == self.spec_focus_change(current, next),
    {
        let mut lost: Vec<Id> = Vec::new();
        let mut gained: Vec<Id> = Vec::new();
        if current == next {
            return (lost, gained);
        }
        match current {
            Some(prev) => {
                let stack = self.get_control_stack(prev).unwrap();
                let lca = match next {
                    Some(n) => self.lowest_common_ancestor(prev, n),
                    None => None,
                };
                let ghost k: int = match next {
                    Some(n) => common_suffix_len(stack@, self.control_stack(n)) as int,
                    None => 0,
                };
                proof {
                    self.lemma_stack_no_duplicates(prev);
                    if let Some(n) = next {
                        lemma_common_suffix_props(stack@, self.control_stack(n));
                    }
                }
                let mut i: usize = 0;
                while i < stack.len() && Some(stack[i]) != lca
                    invariant
                        i <= stack@.len() - k,
                        0 <= k <= stack@.len(),
                        stack@.no_duplicates(),
                        k > 0 ==> lca == Some(stack@[stack@.len() - k]),
                        k == 0 ==> lca is None,
                        lost@ == stack@.take(i as int),
                    decreases stack@.len() - i,
                {
                    lost.push(stack[i]);
                    assert(lost@ =~= stack@.take(i + 1));
                    i = i + 1;
                }
                proof {
                    if k > 0 && i < stack@.len() - k {
                        assert(stack@[i as int] == stack@[stack@.len() - k]);
                    }
                }
            },
            None => {},
        }
        match next {
            Some(n) => {
                gained = self.get_control_stack(n).unwrap();
            },
            None => {},
        }
        (lost, gained)
    }

    /// No control appears twice in the stack of a control whose chain of parents ends.
    pub proof fn lemma_stack_no_duplicates(&self, id: Id)
        requires
            self.chain_ends(id),
        ensures
            self.control_stack(id).no_duplicates(),
    {
        let s = self.control_stack(id);
        assert forall|i: int, j: int| 0 <= i < s.len() && 0 <= j < s.len() && i != j implies s[i] != s[j] by {
            if s[i] == s[j] {
                self.lemma_stack_tail(id, i);
                self.lemma_stack_tail(id, j);
                assert(s.skip(i).len() != s.skip(j).len());
            }
        }
    }

    /// Exactly the controls that have the focus before and not after are told they lose it,
    /// each once: a control that keeps the focus, such as a common ancestor of the two
    /// controls, is not told. When the focus moves, exactly those that have it after are told
    /// they gain it.
    pub proof fn lemma_focus_lost_exactly(&self, current: Option<Id>, next: Option<Id>)
        requires
            current matches Some(c) ==> self.chain_ends(c),
            next matches Some(n) ==> self.chain_ends(n),
        ensures
            ({
                let (lost, gained) = self.spec_focus_change(current, next);
                let before = match current {
                    Some(c) => self.control_stack(c).to_set(),
                    None => Set::<Id>::empty(),
                };
                let after = match next {
                    Some(n) => self.control_stack(n).to_set(),
                    None => Set::<Id>::empty(),
                };
                &&& lost.to_set() == before.difference(after)
                &&& lost.no_duplicates()
                &&& current != next ==> gained.to_set() == after
            }),
    {
        let (lost, gained) = self.spec_focus_change(current, next);
        let before = match current {
            Some(c) => self.control_stack(c).to_set(),
            None => Set::<Id>::empty(),
        };
        let after = match next {
            Some(n) => self.control_stack(n).to_set(),
            None => Set::<Id>::empty(),
        };
        if current == next {
            assert(lost.to_set() =~= before.difference(after));
        } else {
            match (current, next) {
                (Some(c), Some(n)) => {
                    let sa = self.control_stack(c);
                    let sb = self.control_stack(n);
                    lemma_common_suffix_props(sa, sb);
                    self.lemma_stack_no_duplicates(c);
                    let k = common_suffix_len(sa, sb);
                    assert(lost == sa.take(sa.len() - k));
                    assert forall|x: Id| lost.to_set().contains(x) implies before.difference(after).contains(x) by {
                        let i = lost.index_of(x);
                        assert(sa[i] == x);
                        if sb.contains(x) {
                            let j = sb.index_of(x);
                            self.lemma_stack_tail(c, i);
                            self.lemma_stack_tail(n, j);
                            let m = self.control_stack(x).len();
                            assert(sa.skip(i) == sb.skip(j));
                            assert(m == sa.len() - i);
                            assert(ends_match(sa, sb, k as int)) by {
                                assert(sa[sa.len() - 1 - k] == sa.skip(i)[m - 1 - k]);
                                assert(sb[sb.len() - 1 - k] == sb.skip(j)[m - 1 - k]);
                            }
                        }
                    }
                    assert forall|x: Id| before.difference(after).contains(x) implies lost.to_set().contains(x) by {
                        let i = sa.index_of(x);
                        if i >= sa.len() - k {
                            assert(ends_match(sa, sb, sa.len() - 1 - i));
                            assert(sb[sb.len() - 1 - (sa.len() - 1 - i)] == x);
                        } else {
                            assert(lost[i] == x);
                        }
                    }
                    assert(lost.to_set() =~= before.difference(after));
                    assert(lost.no_duplicates());
                    assert(gained.to_set() =~= after);
                },
                (Some(c), None) => {
                    self.lemma_stack_no_duplicates(c);
                    assert(lost.to_set() =~= before.difference(after));
                },
                (None, Some(n)) => {
                    assert(lost.to_set() =~= before.difference(after));
                    assert(gained.to_set() =~= after);
                },
                (None, None) => {},
            }
        }
    }

    /// When the controls with focus are `current` and its ancestors, taking away those that lose
    /// focus and adding those that gain it leaves exactly `next` and its ancestors with focus.
    pub proof fn lemma_focus_change(&self, current: Option<Id>, next: Option<Id>)
        requires
            current matches Some(c) ==> self.chain_ends(c),
            next matches Some(n) ==> self.chain_ends(n),
        ensures
            ({
                let (lost, gained) = self.spec_focus_change(current, next);
                let before = match current {
                    Some(c) => self.control_stack(c).to_set(),
                    None => Set::<Id>::empty(),
                };
                let after = match next {
                    Some(n) => self.control_stack(n).to_set(),
                    None => Set::<Id>::empty(),
                };
                before.difference(lost.to_set()).union(gained.to_set()) == after
            }),
    {
        let (lost, gained) = self.spec_focus_change(current, next);
        let before = match current {
            Some(c) => self.control_stack(c).to_set(),
            None => Set::<Id>::empty(),
        };
        let after = match next {
            Some(n) => self.control_stack(n).to_set(),
            None => Set::<Id>::empty(),
        };
        if current == next {
            assert(before.difference(lost.to_set()).union(gained.to_set()) =~= after);
        } else {
            match (current, next) {
                (Some(c), Some(n)) => {
                    let sa = self.control_stack(c);
                    let sb = self.control_stack(n);
                    lemma_common_suffix_props(sa, sb);
                    self.lemma_stack_no_duplicates(c);
                    let k = common_suffix_len(sa, sb);
                    assert forall|x: Id| before.difference(lost.to_set()).contains(x) implies sb.contains(x) by {
                        let i = sa.index_of(x);
                        if i < sa.len() - k {
                            assert(lost[i] == x);
                        }
                        assert(ends_match(sa, sb, sa.len() - 1 - i));
                        assert(sb[sb.len() - 1 - (sa.len() - 1 - i)] == x);
                    }
                    assert(before.difference(lost.to_set()).union(gained.to_set()) =~= after);
                },
                (Some(c), None) => {
                    assert(before.difference(lost.to_set()).union(gained.to_set()) =~= after);
                },
                (None, Some(n)) => {
                    assert(before.difference(lost.to_set()).union(gained.to_set()) =~= after);
                },
                (None, None) => {},
            }
        }
    }
}

/// The first control of `walk` whose slot is marked in `focusable` (slots past its end are not).
pub open spec fn first_focusable(walk: Seq<Id>, focusable: Seq<bool>) -> Option<Id>
    decreases walk.len(),
{
    if walk.len() == 0 {
        None
    } else if walk[0].index < focusable.len() && focusable[walk[0].index as int] {
        Some(walk[0])
    } else {
        first_focusable(walk.drop_first(), focusable)
    }
}

impl<T> Controls<T> {
    /// Every control's children are valid Ids.
    pub open spec fn children_valid(&self) -> bool {
        forall|id: Id| #[trigger] self.spec_get(id) matches Some(c) ==> self.all_valid(c.children@)
    }

    /// The children of `id` that a walk goes down to: the active ones, or all of them. None for an
    /// Id that is not valid.
    pub open spec fn walk_children(&self, id: Id, active_only: bool) -> Seq<Id> {
        match self.spec_get(id) {
            Some(c) => if active_only {
                self.active_children(id)
            } else {
                c.children@
            },
            None => Seq::empty(),
        }
    }

    /// What a walk pushes on its stack after visiting `id`: its children, last first for a walk
    /// in order, first first for a walk in reverse order.
    pub open spec fn pushed_children(&self, id: Id, active_only: bool, reverse: bool) -> Seq<Id> {
        let ch = self.walk_children(id, active_only);
        if reverse {
            ch
        } else {
            ch.reverse()
        }
    }

    /// The controls a depth-first walk visits, in order, starting from the stack `stack` (whose
    /// last element comes next), for at most `fuel` steps.
    pub open spec fn walk_from(&self, stack: Seq<Id>, fuel: nat, active_only: bool, reverse: bool) -> Seq<Id>
        decreases fuel,
    {
        if fuel == 0 || stack.len() == 0 {
            Seq::empty()
        } else {
            let id = stack.last();
            seq![id] + self.walk_from(
                stack.drop_last() + self.pushed_children(id, active_only, reverse),
                (fuel - 1) as nat,
                active_only,
                reverse,
            )
        }
    }

    /// Push the children that a walk goes down to after visiting `id`.
    fn push_children(&self, stack: &mut Vec<Id>, id: Id, active_only: bool, reverse: bool)
        requires
            self.children_valid(),
        ensures
            final(stack)@ == old(stack)@ + self.pushed_children(id, active_only, reverse),
    {
        let ghost s0 = stack@;
        let ch: Vec<Id> = if active_only {
            match self.get(id) {
                Some(_) => self.get_active_children(id).unwrap(),
                None => Vec::new(),
            }
        } else {
            match self.get_all_children(id) {
                Some(c) => slice_to_vec_ids(c),
                None => Vec::new(),
            }
        };
        assert(ch@ == self.walk_children(id, active_only));
        let n = ch.len();
        if reverse {
            let mut i: usize = 0;
            while i < n
                invariant
                    n == ch@.len(),
                    i <= n,
                    stack@ == s0 + ch@.take(i as int),
                decreases n - i,
            {
                stack.push(ch[i]);
                assert(ch@.take(i + 1) =~= ch@.take(i as int).push(ch@[i as int]));
                i = i + 1;
            }
            assert(ch@.take(n as int) =~= ch@);
        } else {
            let mut i: usize = n;
            while i > 0
                invariant
                    n == ch@.len(),
                    i <= n,
                    stack@ == s0 + ch@.skip(i as int).reverse(),
                decreases i,
            {
                i = i - 1;
                stack.push(ch[i]);
                assert(ch@.skip(i as int).reverse() =~= ch@.skip(i + 1).reverse().push(ch@[i as int]));
            }
            assert(ch@.skip(0) =~= ch@);
        }
    }

    /// The controls of the subtree of `id`, in depth-first order: `id`, then the subtree of its
    /// first child, then of the next, and so on; only through active children when
    /// `active_only`. A walk takes at most one step per slot, which is enough for a tree.
    pub fn subtree(&self, id: Id, active_only: bool) -> (walk: Vec<Id>)
        requires
            self.children_valid(),
        ensures
            walk@ == self.walk_from(seq![id], self.entries().len(), active_only, false),
    {
        let mut stack: Vec<Id> = Vec::new();
        stack.push(id);
        let mut walk: Vec<Id> = Vec::new();
        let mut fuel: usize = self.controls.len();
        let ghost total = self.walk_from(seq![id], self.entries().len(), active_only, false);
        assert(stack@ =~= seq![id]);
        while fuel > 0 && stack.len() > 0
            invariant
                self.children_valid(),
                walk@ + self.walk_from(stack@, fuel as nat, active_only, false) == total,
            decreases fuel,
        {
            let x = stack.pop().unwrap();
            let ghost st = stack@;
            self.push_children(&mut stack, x, active_only, false);
            walk.push(x);
            fuel = fuel - 1;
            assert(walk@ + self.walk_from(stack@, fuel as nat, active_only, false) =~= total);
        }
        assert(self.walk_from(stack@, fuel as nat, active_only, false) =~= Seq::<Id>::empty());
        assert(walk@ =~= total);
        walk
    }

    /// The control that gets the focus when moving it from `curr` with the tab key: the first
    /// control after `curr` in a depth-first walk of the active controls (before it, with
    /// `reverse`) whose slot is marked in `focusable`, not going down into `curr` itself. The walk
    /// takes at most one step per slot, which is enough for a tree.
    pub fn next_focus(&self, curr: Id, focusable: &[bool], reverse: bool) -> (next: Option<Id>)
        requires
            self.tree_ready(curr),
            self.children_valid(),
        ensures
            next == first_focusable(
                self.walk_from(self.walk_stack(curr, reverse).drop_last(), self.entries().len(), true, reverse),
                focusable@,
            ),
    {
        let mut stack = if reverse {
            self.rev_tree_starting_at(curr).unwrap()
        } else {
            self.tree_starting_at(curr).unwrap()
        };
        proof {
            self.lemma_walk_next(curr, reverse);
        }
        stack.pop();
        let mut fuel: usize = self.controls.len();
        let ghost goal = first_focusable(
            self.walk_from(self.walk_stack(curr, reverse).drop_last(), self.entries().len(), true, reverse),
            focusable@,
        );
        while fuel > 0 && stack.len() > 0
            invariant
                self.children_valid(),
                first_focusable(self.walk_from(stack@, fuel as nat, true, reverse), focusable@) == goal,
                goal == first_focusable(
                    self.walk_from(self.walk_stack(curr, reverse).drop_last(), self.entries().len(), true, reverse),
                    focusable@,
                ),
            decreases fuel,
        {
            let ghost st0 = stack@;
            let ghost w = self.walk_from(st0, fuel as nat, true, reverse);
            let x = stack.pop().unwrap();
            assert(st0.drop_last() =~= stack@);
            assert(w[0] == x);
            self.push_children(&mut stack, x, true, reverse);
            fuel = fuel - 1;
            assert(w.drop_first() =~= self.walk_from(stack@, fuel as nat, true, reverse));
            if (x.index as usize) < focusable.len() && focusable[x.index as usize] {
                assert(first_focusable(w, focusable@) == Some(x));
                return Some(x);
            }
        }
        None
    }
}

/// The last Id of `s` whose slot is marked in `hit` (slots past its end are not).
pub open spec fn last_marked(s: Seq<Id>, hit: Seq<bool>) -> Option<Id>
    decreases s.len(),
{
    if s.len() == 0 {
        None
    } else if s.last().index < hit.len() && hit[s.last().index as int] {
        Some(s.last())
    } else {
        last_marked(s.drop_last(), hit)
    }
}

/// `last_marked` finds a marked Id of the sequence, after which none is marked.
pub proof fn lemma_last_marked(s: Seq<Id>, hit: Seq<bool>)
    ensures
        match last_marked(s, hit) {
            Some(c) => exists|i: int|
                0 <= i < s.len() && s[i] == c && c.index < hit.len() && hit[c.index as int]
                    && forall|j: int| i < j < s.len() ==> !(s[j].index < hit.len() && hit[s[j].index as int]),
            None => forall|j: int| 0 <= j < s.len() ==> !(s[j].index < hit.len() && hit[s[j].index as int]),
        },
        last_marked(s, hit) matches Some(c) ==> s.contains(c),
    decreases s.len(),
{
    if s.len() > 0 {
        let t = s.drop_last();
        lemma_last_marked(t, hit);
        if !(s.last().index < hit.len() && hit[s.last().index as int]) {
            match last_marked(t, hit) {
                Some(c) => {
                    let i = choose|i: int|
                        0 <= i < t.len() && t[i] == c && c.index < hit.len() && hit[c.index as int]
                            && forall|j: int| i < j < t.len() ==> !(t[j].index < hit.len() && hit[t[j].index as int]);
                    assert(s[i] == c);
                    assert forall|j: int| i < j < s.len() implies !(s[j].index < hit.len() && hit[s[j].index as int]) by {
                        if j < t.len() {
                            assert(s[j] == t[j]);
                        }
                    }
                },
                None => {
                    assert forall|j: int| 0 <= j < s.len() implies !(s[j].index < hit.len() && hit[s[j].index as int]) by {
                        if j < t.len() {
                            assert(s[j] == t[j]);
                        }
                    }
                },
            }
        } else {
            assert(s[s.len() - 1] == s.last());
        }
    }
}

/// The last Id of `ids` whose slot is marked in `hit`.
fn last_marked_in(ids: &Vec<Id>, hit: &[bool]) -> (found: Option<Id>)
    ensures
        found == last_marked(ids@, hit@),
{
    let mut i: usize = ids.len();
    assert(ids@.take(i as int) =~= ids@);
    while i > 0
        invariant
            i <= ids@.len(),
            last_marked(ids@, hit@) == last_marked(ids@.take(i as int), hit@),
        decreases i,
    {
        let x = ids[i - 1];
        let ghost t = ids@.take(i as int);
        assert(t.last() == x);
        assert(t.drop_last() =~= ids@.take(i - 1));
        if (x.index as usize) < hit.len() && hit[x.index as usize] {
            return Some(x);
        }
        i = i - 1;
    }
    assert(ids@.take(0) =~= Seq::<Id>::empty());
    None
}

impl<T> Controls<T> {
    /// The controls that a pointer goes down through from `id`: `id`, then, while one of the
    /// active children of the last one is marked in `hit`, the last such child (which is drawn in
    /// front of its earlier siblings), for at most `fuel` steps down.
    pub open spec fn hit_path_from(&self, id: Id, hit: Seq<bool>, fuel: nat) -> Seq<Id>
        decreases fuel,
    {
        if fuel == 0 {
            seq![id]
        } else {
            match last_marked(self.walk_children(id, true), hit) {
                Some(c) => seq![id] + self.hit_path_from(c, hit, (fuel - 1) as nat),
                None => seq![id],
            }
        }
    }

    /// Each control of `path` after the first is an active child of the one before it whose slot
    /// is marked in `hit`.
    pub open spec fn goes_down(&self, path: Seq<Id>, hit: Seq<bool>) -> bool {
        forall|k: int|
            1 <= k < path.len() ==> {
                &&& self.walk_children(path[k - 1], true).contains(#[trigger] path[k])
                &&& path[k].index < hit.len()
                &&& hit[path[k].index as int]
            }
    }

    /// The path of the pointer goes down the tree: it starts at `id`, and each next control is an
    /// active child of the one before it whose slot is marked in `hit`.
    pub proof fn lemma_hit_path_descends(&self, id: Id, hit: Seq<bool>, fuel: nat)
        ensures
            self.hit_path_from(id, hit, fuel).len() >= 1,
            self.hit_path_from(id, hit, fuel)[0] == id,
            self.goes_down(self.hit_path_from(id, hit, fuel), hit),
        decreases fuel,
    {
        let p = self.hit_path_from(id, hit, fuel);
        if fuel > 0 {
            lemma_last_marked(self.walk_children(id, true), hit);
            if let Some(c) = last_marked(self.walk_children(id, true), hit) {
                let q = self.hit_path_from(c, hit, (fuel - 1) as nat);
                self.lemma_hit_path_descends(c, hit, (fuel - 1) as nat);
                assert(p == seq![id] + q);
                assert forall|k: int| 1 <= k < p.len() implies {
                    &&& self.walk_children(p[k - 1], true).contains(#[trigger] p[k])
                    &&& p[k].index < hit.len()
                    &&& hit[p[k].index as int]
                } by {
                    assert(p[k] == q[k - 1]);
                    if k > 1 {
                        assert(p[k - 1] == q[k - 2]);
                        assert(q[k - 1] == q[(k - 1) as int]);
                    }
                }
            }
        }
    }

    /// The controls under the pointer, from the root down: `hit` marks the slots of the controls
    /// whose rect holds the pointer, and the path goes down, from the root, into the last active
    /// child that is marked, as long as there is one. It takes at most one step per slot, which
    /// is enough for a tree.
    pub fn hit_path(&self, hit: &[bool]) -> (path: Vec<Id>)
        requires
            self.children_valid(),
        ensures
            path@ == self.hit_path_from(root_id(), hit@, self.entries().len()),
            path@[0] == root_id(),
            self.goes_down(path@, hit@),
    {
        proof {
            self.lemma_hit_path_descends(root_id(), hit@, self.entries().len());
        }
        let mut curr = Id::root();
        let mut path: Vec<Id> = Vec::new();
        path.push(curr);
        let mut fuel: usize = self.controls.len();
        let ghost total = self.hit_path_from(root_id(), hit@, self.entries().len());
        let mut done = false;
        assert(path@ + total.drop_first() =~= total);
        while fuel > 0 && !done
            invariant
                self.children_valid(),
                !done ==> total == path@ + self.hit_path_from(curr, hit@, fuel as nat).drop_first(),
                done ==> total == path@,
            decreases fuel + (if done { 0int } else { 1int }),
        {
            let ch: Vec<Id> = match self.get(curr) {
                Some(_) => self.get_active_children(curr).unwrap(),
                None => Vec::new(),
            };
            assert(ch@ == self.walk_children(curr, true));
            match last_marked_in(&ch, hit) {
                Some(c) => {
                    let ghost rest = self.hit_path_from(c, hit@, (fuel - 1) as nat);
                    assert(rest =~= seq![c] + rest.drop_first());
                    assert((seq![curr] + rest).drop_first() =~= rest);
                    path.push(c);
                    curr = c;
                    fuel = fuel - 1;
                    assert(total =~= path@ + self.hit_path_from(curr, hit@, fuel as nat).drop_first());
                },
                None => {
                    assert(seq![curr].drop_first() =~= Seq::<Id>::empty());
                    assert(total =~= path@);
                    done = true;
                },
            }
        }
        if !done {
            assert(seq![curr].drop_first() =~= Seq::<Id>::empty());
            assert(total =~= path@);
        }
        path
    }
}

/// `c` with the given `active` and `really_active` flags.
pub open spec fn with_flags<T>(c: Control<T>, active: bool, really_active: bool) -> Control<T> {
    Control { active, really_active, ..c }
}

impl<T> Controls<T> {
    /// The control of `y` after the control `id` gets the `active` flag `active`, and the controls
    /// of `touched` the `really_active` flag `really`.
    pub open spec fn reflagged(&self, id: Id, active: bool, touched: Seq<Id>, really: bool, y: Id) -> Option<
        Control<T>,
    > {
        match self.spec_get(y) {
            Some(c) => Some(
                with_flags(
                    c,
                    if y == id {
                        active
                    } else {
                        c.active
                    },
                    if touched.contains(y) {
                        really
                    } else {
                        c.really_active
                    },
                ),
            ),
            None => None,
        }
    }

    /// Whether activating or deactivating `id` reaches its subtree: it has no parent, or its
    /// parent is really active.
    pub open spec fn reaches_subtree(&self, id: Id) -> bool {
        match self.parent_of(id) {
            None => true,
            Some(p) => self.spec_get(p) matches Some(pc) && pc.really_active,
        }
    }

    /// Set the flags of the control of `x`.
    fn set_flags(&mut self, x: Id, active: bool, really_active: bool)
        requires
            old(self).wf(),
            old(self).spec_get(x) is Some,
        ensures
            final(self).wf(),
            final(self).entries().len() == old(self).entries().len(),
            final(self).free_slots() == old(self).free_slots(),
            final(self).current_generation() == old(self).current_generation(),
            final(self).counter() == old(self).counter(),
            final(self).retired() == old(self).retired(),
            forall|y: Id|
                #[trigger] final(self).spec_get(y) == if y == x {
                    Some(with_flags(old(self).spec_get(x)->0, active, really_active))
                } else {
                    old(self).spec_get(y)
                },
    {
        let c = self.get_mut(x).unwrap();
        c.active = active;
        c.really_active = really_active;
    }

    /// One more control flagged: the state after flagging `pre` and then `x` is the state after
    /// flagging `pre` followed by `x`.
    proof fn lemma_reflag_step(
        &self,
        before: Controls<T>,
        after: Controls<T>,
        id: Id,
        active: bool,
        pre: Seq<Id>,
        x: Id,
        really: bool,
    )
        requires
            forall|y: Id| #[trigger] before.spec_get(y) == self.reflagged(id, active, pre, really, y),
            forall|y: Id|
                #[trigger] after.spec_get(y) == if y == x && before.spec_get(x) is Some {
                    Some(with_flags(before.spec_get(x)->0, before.spec_get(x)->0.active, really))
                } else {
                    before.spec_get(y)
                },
        ensures
            forall|y: Id| #[trigger] after.spec_get(y) == self.reflagged(id, active, pre.push(x), really, y),
    {
        assert forall|y: Id| #[trigger] after.spec_get(y) == self.reflagged(id, active, pre.push(x), really, y) by {
            assert(pre.push(x).contains(y) == (pre.contains(y) || y == x)) by {
                if pre.push(x).contains(y) {
                    let k = choose|k: int| 0 <= k < pre.push(x).len() && pre.push(x)[k] == y;
                    if k < pre.len() {
                        assert(pre[k] == y);
                    }
                }
                if pre.contains(y) {
                    let k = choose|k: int| 0 <= k < pre.len() && pre[k] == y;
                    assert(pre.push(x)[k] == y);
                }
                if y == x {
                    assert(pre.push(x)[pre.len() as int] == y);
                }
            }
            assert(before.spec_get(y) == self.reflagged(id, active, pre, really, y));
            assert(before.spec_get(x) == self.reflagged(id, active, pre, really, x));
        }
    }

    /// Give the `active` flag `active` to `id`, and the `really_active` flag `really` to the
    /// controls of `touched` (those that are valid).
    fn reflag(&mut self, id: Id, active: bool, touched: &Vec<Id>, really: bool)
        requires
            old(self).wf(),
            old(self).spec_get(id) is Some,
        ensures
            final(self).wf(),
            final(self).entries().len() == old(self).entries().len(),
            final(self).free_slots() == old(self).free_slots(),
            final(self).current_generation() == old(self).current_generation(),
            final(self).counter() == old(self).counter(),
            final(self).retired() == old(self).retired(),
            forall|y: Id| #[trigger] final(self).spec_get(y) == old(self).reflagged(id, active, touched@, really, y),
    {
        let ghost start = *self;
        let really_id = self.get(id).unwrap().really_active;
        self.set_flags(id, active, really_id);
        proof {
            assert forall|y: Id| #[trigger] self.spec_get(y) == start.reflagged(id, active, Seq::empty(), really, y) by {
                assert(!Seq::<Id>::empty().contains(y));
            }
        }
        let mut i: usize = 0;
        while i < touched.len()
            invariant
                self.wf(),
                self.entries().len() == start.entries().len(),
                self.free_slots() == start.free_slots(),
                self.current_generation() == start.current_generation(),
                self.counter() == start.counter(),
                self.retired() == start.retired(),
                i <= touched@.len(),
                forall|y: Id| #[trigger] self.spec_get(y) == start.reflagged(id, active, touched@.take(i as int), really, y),
            decreases touched@.len() - i,
        {
            let x = touched[i];
            let ghost pre = touched@.take(i as int);
            assert(touched@.take(i + 1) =~= pre.push(x));
            let ghost before = *self;
            match self.get(x) {
                Some(c) => {
                    let a = c.active;
                    self.set_flags(x, a, really);
                },
                None => {},
            }
            proof {
                start.lemma_reflag_step(before, *self, id, active, pre, x, really);
            }
            i = i + 1;
        }
        assert(touched@.take(i as int) =~= touched@);
    }

    /// Activate the control `id`: it becomes active, and when it has no parent or its parent is
    /// really active, it and its active subtree become really active. Returns those that became
    /// really active, in the order of a depth-first walk (empty when `id` is not valid or was
    /// already active).
    pub fn activate(&mut self, id: Id) -> (woken: Vec<Id>)
        requires
            old(self).wf(),
            old(self).children_valid(),
            old(self).parent_of(id) matches Some(p) ==> old(self).spec_get(p) is Some,
        ensures
            final(self).wf(),
            final(self).entries().len() == old(self).entries().len(),
            final(self).free_slots() == old(self).free_slots(),
            final(self).current_generation() == old(self).current_generation(),
            final(self).counter() == old(self).counter(),
            final(self).retired() == old(self).retired(),
            match old(self).spec_get(id) {
                Some(c) if !c.active => {
                    &&& woken@ == if old(self).reaches_subtree(id) {
                        old(self).walk_from(seq![id], old(self).entries().len(), true, false)
                    } else {
                        Seq::empty()
                    }
                    &&& forall|y: Id| #[trigger] final(self).spec_get(y) == old(self).reflagged(id, true, woken@, true, y)
                },
                _ => woken@.len() == 0 && *final(self) == *old(self),
            },
    {
        let c = match self.get(id) {
            Some(c) => c,
            None => return Vec::new(),
        };
        if c.active {
            return Vec::new();
        }
        let reaches = match c.parent {
            Some(p) => self.get(p).unwrap().really_active,
            None => true,
        };
        let woken = if reaches {
            self.subtree(id, true)
        } else {
            Vec::new()
        };
        self.reflag(id, true, &woken, true);
        woken
    }

    /// Deactivate the control `id`: it stops being active, and when it has no parent or its
    /// parent is really active, it and its active subtree stop being really active. Returns
    /// those, in the order of a depth-first walk (empty when `id` is not valid or was not
    /// active).
    pub fn deactivate(&mut self, id: Id) -> (slept: Vec<Id>)
        requires
            old(self).wf(),
            old(self).children_valid(),
            old(self).parent_of(id) matches Some(p) ==> old(self).spec_get(p) is Some,
        ensures
            final(self).wf(),
            final(self).entries().len() == old(self).entries().len(),
            final(self).free_slots() == old(self).free_slots(),
            final(self).current_generation() == old(self).current_generation(),
            final(self).counter() == old(self).counter(),
            final(self).retired() == old(self).retired(),
            match old(self).spec_get(id) {
                Some(c) if c.active => {
                    &&& slept@ == if old(self).reaches_subtree(id) {
                        old(self).walk_from(seq![id], old(self).entries().len(), true, false)
                    } else {
                        Seq::empty()
                    }
                    &&& forall|y: Id| #[trigger] final(self).spec_get(y) == old(self).reflagged(id, false, slept@, false, y)
                },
                _ => slept@.len() == 0 && *final(self) == *old(self),
            },
    {
        let c = match self.get(id) {
            Some(c) => c,
            None => return Vec::new(),
        };
        if !c.active {
            return Vec::new();
        }
        let reaches = match c.parent {
            Some(p) => self.get(p).unwrap().really_active,
            None => true,
        };
        let slept = if reaches {
            self.subtree(id, true)
        } else {
            Vec::new()
        };
        self.reflag(id, false, &slept, false);
        slept
    }
}

/// A copy of a slice of Ids.
fn slice_to_vec_ids(s: &[Id]) -> (v: Vec<Id>)
    ensures
        v@ == s@,
{
    let mut v: Vec<Id> = Vec::new();
    let mut i: usize = 0;
    while i < s.len()
        invariant
            i <= s@.len(),
            v@ == s@.take(i as int),
        decreases s@.len() - i,
    {
        v.push(s[i]);
        assert(s@.take(i + 1) =~= s@.take(i as int).push(s@[i as int]));
        i = i + 1;
    }
    assert(s@.take(i as int) =~= s@);
    v
}

/// Builds a control in a reserved slot.
pub struct ControlBuilder<T> {
    pub id: Id,
    pub control: Control<T>,
}

impl<T> ControlBuilder<T> {
    /// Create a new ControlBuilder, that builds a control with the given Id, holding `data`.
    /// The given Id must be a reserved Id, with no other control already built with it.
    pub fn new(controls: &Controls<T>, id: Id, data: T) -> (b: ControlBuilder<T>)
        requires
            id.index < controls.entries().len(),
            controls.entries()[id.index as int] is Reserved,
        ensures
            b.id == id,
            b.control.generation == id.generation,
            b.control.data == data,
            b.control.parent is None,
            b.control.children@.len() == 0,
            b.control.active,
            !b.control.focus,
            !b.control.really_active,
    {
        let mut control = Control::new(id.generation, data);
        control.active = true;
        ControlBuilder { id, control }
    }

    /// Return the Id of the control that this ControlBuilder is building.
    pub fn id(&self) -> (id: Id)
        ensures
            id == self.id,
    {
        self.id
    }

    /// Set the parent of the control.
    pub fn parent(self, parent: Id) -> (b: ControlBuilder<T>)
        ensures
            b.id == self.id,
            b.control == (Control { parent: Some(parent), ..self.control }),
    {
        let mut b = self;
        b.control.parent = Some(parent);
        b
    }

    /// Set whether the control is active once built.
    pub fn active(self, active: bool) -> (b: ControlBuilder<T>)
        ensures
            b.id == self.id,
            b.control == (Control { active, ..self.control }),
    {
        let mut b = self;
        b.control.active = active;
        b
    }

    /// If it is true, the focus will change to this control when built.
    pub fn focus(self, focus: bool) -> (b: ControlBuilder<T>)
        ensures
            b.id == self.id,
            b.control == (Control { focus, ..self.control }),
    {
        let mut b = self;
        b.control.focus = focus;
        b
    }

    /// Build `child`, the builder of a control in a reserved slot, as a child of this control,
    /// which may itself be still reserved: the child is then handed over when this control is
    /// built. Returns this builder unchanged.
    pub fn child_reserved(self, child: ControlBuilder<T>, controls: &mut Controls<T>) -> (b: ControlBuilder<T>)
        requires
            old(controls).wf(),
            child.id.index < old(controls).entries().len(),
            old(controls).entries()[child.id.index as int] matches ControlEntry::Reserved {
                generation,
                ..
            } && generation == child.control.generation,
            self.id.index < old(controls).entries().len(),
            !(old(controls).entries()[self.id.index as int] is Free),
        ensures
            b == self,
            final(controls).wf(),
            final(controls).free_slots() == old(controls).free_slots(),
            final(controls).current_generation() == old(controls).current_generation(),
            final(controls).counter() == old(controls).counter(),
            final(controls).retired() == old(controls).retired(),
            final(controls).entries().len() == old(controls).entries().len(),
            ({
                let id = child.id;
                let p = self.id;
                let reserved = old(controls).entries()[id.index as int]->Reserved_children@;
                &&& final(controls).entries()[id.index as int] matches ControlEntry::Builded { control: c }
                    && c.generation == child.control.generation && c.data == child.control.data
                    && c.parent == Some(p) && c.active == child.control.active
                    && c.focus == child.control.focus && c.really_active == child.control.really_active
                    && c.children@ == child.control.children@ + reserved
                &&& p.index != id.index ==> child_added(
                    old(controls).entries()[p.index as int],
                    final(controls).entries()[p.index as int],
                    id,
                )
                &&& forall|j: int|
                    0 <= j < old(controls).entries().len() && j != id.index && j != p.index
                        ==> final(controls).entries()[j] == old(controls).entries()[j]
            }),
    {
        let parent = self.id;
        child.parent(parent).build(controls);
        self
    }

    /// Build the control in its slot: it takes over the children that were built with its
    /// reserved Id as parent, registers itself as a child of its parent (the root when none was
    /// set), and becomes a built control.
    pub fn build(self, controls: &mut Controls<T>) -> (id: Id)
        requires
            old(controls).wf(),
            self.id.index < old(controls).entries().len(),
            old(controls).entries()[self.id.index as int] matches ControlEntry::Reserved {
                generation,
                ..
            } && generation == self.control.generation,
            match self.control.parent {
                Some(p) => p.index < old(controls).entries().len() && !(old(controls).entries()[p.index as int] is Free),
                None => old(controls).spec_get(root_id()) is Some,
            },
        ensures
            id == self.id,
            final(controls).wf(),
            final(controls).free_slots() == old(controls).free_slots(),
            final(controls).current_generation() == old(controls).current_generation(),
            final(controls).counter() == old(controls).counter(),
            final(controls).retired() == old(controls).retired(),
            final(controls).entries().len() == old(controls).entries().len(),
            ({
                let p = match self.control.parent {
                    Some(p) => p,
                    None => root_id(),
                };
                let reserved = old(controls).entries()[id.index as int]->Reserved_children@;
                &&& final(controls).entries()[id.index as int] matches ControlEntry::Builded { control: c }
                    && c.generation == self.control.generation && c.data == self.control.data
                    && c.parent == Some(p) && c.active == self.control.active
                    && c.focus == self.control.focus && c.really_active == self.control.really_active
                    && c.children@ == self.control.children@ + reserved
                &&& p.index != id.index ==> child_added(
                    old(controls).entries()[p.index as int],
                    final(controls).entries()[p.index as int],
                    id,
                )
                &&& forall|j: int|
                    0 <= j < old(controls).entries().len() && j != id.index && j != p.index
                        ==> final(controls).entries()[j] == old(controls).entries()[j]
                &&& self.control.generation == id.generation ==> (final(controls).spec_get(id)
                    matches Some(c) && c.parent == Some(p))
            }),
    {
        let ControlBuilder { id, mut control } = self;
        let mut reserved = controls.take_reserved_children(id.index);
        control.children.append(&mut reserved);
        let parent = match control.parent {
            Some(p) => p,
            None => {
                control.parent = Some(Id::root());
                Id::root()
            },
        };
        controls.add_child_at(parent.index, id);
        controls.add_builded_control(id, control);
        id
    }
}

} // verus!
