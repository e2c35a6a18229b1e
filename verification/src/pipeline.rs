//! The pipeline graph: a tree alternating serial and parallel composition.
//!
//! A serial node is either a single command or an ordered sequence of
//! parallel nodes, each stage feeding the next; a parallel node is either a
//! single command or a set of serial nodes whose outputs are concatenated
//! in declaration order. The root is always serial.

use vstd::prelude::*;

use crate::bytes::bytes_eq;

verus! {

broadcast use crate::bytes::lemma_bytes_deep_view;

/// A leaf of the graph: which module, which command, which parameters.
pub struct PipelineCommand {
    pub module: Vec<u8>,
    pub command: Vec<u8>,
    pub parameters: Option<Vec<Vec<u8>>>,
}

pub enum PipelineNodeSerial {
    SerialSingle(PipelineCommand),
    SerialMultiple(Vec<PipelineNodeParallel>),
}

pub enum PipelineNodeParallel {
    ParallelSingle(PipelineCommand),
    ParallelMultiple(Vec<PipelineNodeSerial>),
}

/// A whole pipeline: its root serial node.
pub struct Pipeline {
    pub root: PipelineNodeSerial,
}

/// One payload buffer: the index of an arena buffer and its size.
#[derive(Clone, Copy, PartialEq, Eq, Structural, Debug)]
pub struct PipelineData {
    pub data: usize,
    pub size: usize,
}

/// The mathematical shape of a command.
pub ghost struct CommandView {
    pub module: Seq<u8>,
    pub command: Seq<u8>,
    pub parameters: Option<Seq<Seq<u8>>>,
}

/// The mathematical shape of a serial node.
pub ghost enum SerialView {
    Single(CommandView),
    Multiple(Seq<ParallelView>),
}

/// The mathematical shape of a parallel node.
pub ghost enum ParallelView {
    Single(CommandView),
    Multiple(Seq<SerialView>),
}

pub open spec fn spec_command_view(c: PipelineCommand) -> CommandView {
    CommandView {
        module: c.module@,
        command: c.command@,
        parameters: match c.parameters {
            Option::Some(ps) => Option::Some(ps.deep_view()),
            Option::None => Option::None,
        },
    }
}

pub open spec fn spec_serial_view(n: PipelineNodeSerial) -> SerialView
    decreases n,
{
    match n {
        PipelineNodeSerial::SerialSingle(c) => SerialView::Single(spec_command_view(c)),
        PipelineNodeSerial::SerialMultiple(nodes) => SerialView::Multiple(
            spec_parallel_views(nodes@),
        ),
    }
}

pub open spec fn spec_parallel_views(nodes: Seq<PipelineNodeParallel>) -> Seq<ParallelView>
    decreases nodes,
{
    if nodes.len() == 0 {
        Seq::empty()
    } else {
        seq![spec_parallel_view(nodes[0])] + spec_parallel_views(nodes.drop_first())
    }
}

pub open spec fn spec_parallel_view(n: PipelineNodeParallel) -> ParallelView
    decreases n,
{
    match n {
        PipelineNodeParallel::ParallelSingle(c) => ParallelView::Single(spec_command_view(c)),
        PipelineNodeParallel::ParallelMultiple(nodes) => ParallelView::Multiple(
            spec_serial_views(nodes@),
        ),
    }
}

pub open spec fn spec_serial_views(nodes: Seq<PipelineNodeSerial>) -> Seq<SerialView>
    decreases nodes,
{
    if nodes.len() == 0 {
        Seq::empty()
    } else {
        seq![spec_serial_view(nodes[0])] + spec_serial_views(nodes.drop_first())
    }
}

pub proof fn lemma_parallel_views_index(nodes: Seq<PipelineNodeParallel>, i: int)
    requires
        0 <= i < nodes.len(),
    ensures
        spec_parallel_views(nodes).len() == nodes.len(),
        spec_parallel_views(nodes)[i] == spec_parallel_view(nodes[i]),
    decreases nodes.len(),
{
    lemma_parallel_views_len(nodes);
    if i > 0 {
        lemma_parallel_views_index(nodes.drop_first(), i - 1);
    }
}

pub proof fn lemma_parallel_views_len(nodes: Seq<PipelineNodeParallel>)
    ensures
        spec_parallel_views(nodes).len() == nodes.len(),
    decreases nodes.len(),
{
    if nodes.len() > 0 {
        lemma_parallel_views_len(nodes.drop_first());
    }
}

pub proof fn lemma_serial_views_index(nodes: Seq<PipelineNodeSerial>, i: int)
    requires
        0 <= i < nodes.len(),
    ensures
        spec_serial_views(nodes).len() == nodes.len(),
        spec_serial_views(nodes)[i] == spec_serial_view(nodes[i]),
    decreases nodes.len(),
{
    lemma_serial_views_len(nodes);
    if i > 0 {
        lemma_serial_views_index(nodes.drop_first(), i - 1);
    }
}

pub proof fn lemma_serial_views_len(nodes: Seq<PipelineNodeSerial>)
    ensures
        spec_serial_views(nodes).len() == nodes.len(),
    decreases nodes.len(),
{
    if nodes.len() > 0 {
        lemma_serial_views_len(nodes.drop_first());
    }
}

// ------------------------------------------------------------------
// A structural height, used as the termination measure of the
// executable recursions over the graph.
// ------------------------------------------------------------------

pub open spec fn spec_serial_height(n: PipelineNodeSerial) -> nat
    decreases n,
{
    match n {
        PipelineNodeSerial::SerialSingle(_) => 0,
        PipelineNodeSerial::SerialMultiple(nodes) => 1 + spec_parallel_list_height(nodes@),
    }
}

pub open spec fn spec_parallel_list_height(nodes: Seq<PipelineNodeParallel>) -> nat
    decreases nodes,
{
    if nodes.len() == 0 {
        0
    } else {
        1 + spec_parallel_height(nodes[0]) + spec_parallel_list_height(nodes.drop_first())
    }
}

pub open spec fn spec_parallel_height(n: PipelineNodeParallel) -> nat
    decreases n,
{
    match n {
        PipelineNodeParallel::ParallelSingle(_) => 0,
        PipelineNodeParallel::ParallelMultiple(nodes) => 1 + spec_serial_list_height(nodes@),
    }
}

pub open spec fn spec_serial_list_height(nodes: Seq<PipelineNodeSerial>) -> nat
    decreases nodes,
{
    if nodes.len() == 0 {
        0
    } else {
        1 + spec_serial_height(nodes[0]) + spec_serial_list_height(nodes.drop_first())
    }
}

pub proof fn lemma_parallel_height_index(nodes: Seq<PipelineNodeParallel>, i: int)
    requires
        0 <= i < nodes.len(),
    ensures
        spec_parallel_height(nodes[i]) < spec_parallel_list_height(nodes),
    decreases nodes.len(),
{
    if i > 0 {
        lemma_parallel_height_index(nodes.drop_first(), i - 1);
        assert(nodes.drop_first()[i - 1] == nodes[i]);
    }
}

pub proof fn lemma_serial_height_index(nodes: Seq<PipelineNodeSerial>, i: int)
    requires
        0 <= i < nodes.len(),
    ensures
        spec_serial_height(nodes[i]) < spec_serial_list_height(nodes),
    decreases nodes.len(),
{
    if i > 0 {
        lemma_serial_height_index(nodes.drop_first(), i - 1);
        assert(nodes.drop_first()[i - 1] == nodes[i]);
    }
}

// ------------------------------------------------------------------
// Validity: every leaf names a nonempty module and command, and no
// composite node is empty.
// ------------------------------------------------------------------

pub open spec fn spec_command_valid(c: CommandView) -> bool {
    c.module.len() > 0 && c.command.len() > 0
}

pub open spec fn spec_serial_valid(v: SerialView) -> bool
    decreases v,
{
    match v {
        SerialView::Single(c) => spec_command_valid(c),
        SerialView::Multiple(children) => children.len() > 0 && (forall|i: int|
            0 <= i < children.len() ==> spec_parallel_valid(#[trigger] children[i])),
    }
}

pub open spec fn spec_parallel_valid(v: ParallelView) -> bool
    decreases v,
{
    match v {
        ParallelView::Single(c) => spec_command_valid(c),
        ParallelView::Multiple(children) => children.len() > 0 && (forall|i: int|
            0 <= i < children.len() ==> spec_serial_valid(#[trigger] children[i])),
    }
}

impl PipelineNodeSerial {
    /// Check the construction-time rules of the graph.
    pub fn validate(&self) -> (r: bool)
        ensures
            r <==> spec_serial_valid(spec_serial_view(*self)),
        decreases *self,
    {
        match self {
            PipelineNodeSerial::SerialSingle(c) => c.module.len() > 0 && c.command.len() > 0,
            PipelineNodeSerial::SerialMultiple(nodes) => {
                if nodes.len() == 0 {
                    return false;
                }
                proof {
                    lemma_parallel_views_len(nodes@);
                }
                let mut i: usize = 0;
                while i < nodes.len()
                    invariant
                        0 <= i <= nodes@.len(),
                        *self == PipelineNodeSerial::SerialMultiple(*nodes),
                        spec_parallel_views(nodes@).len() == nodes@.len(),
                        forall|j: int|
                            0 <= j < i ==> spec_parallel_valid(
                                spec_parallel_views(nodes@)[j],
                            ),
                    decreases nodes@.len() - i,
                {
                    proof {
                        lemma_parallel_views_index(nodes@, i as int);
                        assert(decreases_to!(PipelineNodeSerial::SerialMultiple(*nodes) => *nodes));
                        assert(decreases_to!(*nodes => nodes@));
                        assert(decreases_to!(nodes@ => nodes@[i as int]));
                        assert(decreases_to!(*self => nodes@[i as int]));
                    }
                    if !nodes[i].validate() {
                        proof {
                            lemma_parallel_views_index(nodes@, i as int);
                        }
                        return false;
                    }
                    i = i + 1;
                }
                proof {
                    lemma_parallel_views_len(nodes@);
                }
                true
            },
        }
    }
}

impl PipelineNodeParallel {
    /// Check the construction-time rules of the graph.
    pub fn validate(&self) -> (r: bool)
        ensures
            r <==> spec_parallel_valid(spec_parallel_view(*self)),
        decreases *self,
    {
        match self {
            PipelineNodeParallel::ParallelSingle(c) => c.module.len() > 0 && c.command.len() > 0,
            PipelineNodeParallel::ParallelMultiple(nodes) => {
                if nodes.len() == 0 {
                    return false;
                }
                proof {
                    lemma_serial_views_len(nodes@);
                }
                let mut i: usize = 0;
                while i < nodes.len()
                    invariant
                        0 <= i <= nodes@.len(),
                        *self == PipelineNodeParallel::ParallelMultiple(*nodes),
                        spec_serial_views(nodes@).len() == nodes@.len(),
                        forall|j: int|
                            0 <= j < i ==> spec_serial_valid(spec_serial_views(nodes@)[j]),
                    decreases nodes@.len() - i,
                {
                    proof {
                        lemma_serial_views_index(nodes@, i as int);
                        assert(decreases_to!(
                            PipelineNodeParallel::ParallelMultiple(*nodes) => *nodes));
                        assert(decreases_to!(*nodes => nodes@));
                        assert(decreases_to!(nodes@ => nodes@[i as int]));
                        assert(decreases_to!(*self => nodes@[i as int]));
                    }
                    if !nodes[i].validate() {
                        proof {
                            lemma_serial_views_index(nodes@, i as int);
                        }
                        return false;
                    }
                    i = i + 1;
                }
                proof {
                    lemma_serial_views_len(nodes@);
                }
                true
            },
        }
    }
}

// ------------------------------------------------------------------
// The set of module names a subtree mentions.
// ------------------------------------------------------------------

pub open spec fn spec_serial_module_names(v: SerialView) -> Set<Seq<u8>>
    decreases v,
{
    match v {
        SerialView::Single(c) => set![c.module],
        SerialView::Multiple(children) => spec_parallel_list_names(children),
    }
}

pub open spec fn spec_parallel_list_names(children: Seq<ParallelView>) -> Set<Seq<u8>>
    decreases children,
{
    if children.len() == 0 {
        Set::empty()
    } else {
        spec_parallel_module_names(children[0]).union(
            spec_parallel_list_names(children.drop_first()),
        )
    }
}

pub open spec fn spec_parallel_module_names(v: ParallelView) -> Set<Seq<u8>>
    decreases v,
{
    match v {
        ParallelView::Single(c) => set![c.module],
        ParallelView::Multiple(children) => spec_serial_list_names(children),
    }
}

pub open spec fn spec_serial_list_names(children: Seq<SerialView>) -> Set<Seq<u8>>
    decreases children,
{
    if children.len() == 0 {
        Set::empty()
    } else {
        spec_serial_module_names(children[0]).union(
            spec_serial_list_names(children.drop_first()),
        )
    }
}

/// No two entries of `names` are equal.
pub open spec fn spec_no_duplicates(names: Seq<Seq<u8>>) -> bool {
    forall|i: int, j: int| 0 <= i < j < names.len() ==> names[i] != names[j]
}

/// Add `name` to `acc` unless it is already there.
fn push_unique(acc: &mut Vec<Vec<u8>>, name: &Vec<u8>)
    requires
        spec_no_duplicates(old(acc).deep_view()),
    ensures
        spec_no_duplicates(final(acc).deep_view()),
        final(acc).deep_view().to_set() == old(acc).deep_view().to_set().insert(name@),
{
    let mut i: usize = 0;
    while i < acc.len()
        invariant
            0 <= i <= acc@.len(),
            *acc == *old(acc),
            spec_no_duplicates(acc.deep_view()),
            forall|j: int| 0 <= j < i ==> acc.deep_view()[j] != name@,
        decreases acc@.len() - i,
    {
        if bytes_eq(&acc[i], name) {
            proof {
                let dv = acc.deep_view();
                assert(dv[i as int] == acc@[i as int]@);
                assert(dv[i as int] == name@);
                assert(dv.contains(name@));
                assert(dv.to_set().contains(name@));
                assert(dv.to_set() =~= dv.to_set().insert(name@));
            }
            return;
        }
        i = i + 1;
    }
    let copied = crate::bytes::clone_bytes(name);
    acc.push(copied);
    proof {
        let dv = acc.deep_view();
        let odv = old(acc).deep_view();
        assert(dv =~= odv.push(name@));
        assert forall|x: Seq<u8>| dv.to_set().contains(x) implies odv.to_set().insert(
            name@,
        ).contains(x) by {
            assert(dv.contains(x));
            let k = choose|k: int| 0 <= k < dv.len() && dv[k] == x;
            if k < odv.len() {
                assert(odv[k] == x);
                assert(odv.contains(x));
            } else {
                assert(x == name@);
            }
        }
        assert forall|x: Seq<u8>| odv.to_set().insert(name@).contains(x) implies dv.to_set()
            .contains(x) by {
            if x == name@ {
                assert(dv[dv.len() - 1] == x);
                assert(dv.contains(x));
            } else {
                assert(odv.contains(x));
                let k = choose|k: int| 0 <= k < odv.len() && odv[k] == x;
                assert(dv[k] == x);
                assert(dv.contains(x));
            }
        }
        assert(dv.to_set() =~= odv.to_set().insert(name@));
        assert forall|a: int, b: int| 0 <= a < b < dv.len() implies dv[a] != dv[b] by {
            if b == dv.len() - 1 {
                assert(dv[a] == odv[a]);
                if dv[a] == name@ {
                    assert(odv.contains(name@));
                    assert(odv.to_set().contains(name@));
                }
            }
        }
    }
}

impl PipelineNodeSerial {
    /// Every module name the subtree mentions, without duplicates.
    pub fn module_names(&self) -> (r: Vec<Vec<u8>>)
        ensures
            spec_no_duplicates(r.deep_view()),
            r.deep_view().to_set() == spec_serial_module_names(spec_serial_view(*self)),
    {
        let mut acc: Vec<Vec<u8>> = Vec::new();
        proof {
            assert(acc.deep_view().to_set() =~= Set::<Seq<u8>>::empty());
        }
        self.collect_names(&mut acc);
        proof {
            assert(Set::<Seq<u8>>::empty().union(
                spec_serial_module_names(spec_serial_view(*self)),
            ) =~= spec_serial_module_names(spec_serial_view(*self)));
        }
        acc
    }

    fn collect_names(&self, acc: &mut Vec<Vec<u8>>)
        requires
            spec_no_duplicates(old(acc).deep_view()),
        ensures
            spec_no_duplicates(final(acc).deep_view()),
            final(acc).deep_view().to_set() == old(acc).deep_view().to_set().union(
                spec_serial_module_names(spec_serial_view(*self)),
            ),
        decreases spec_serial_height(*self),
    {
        match self {
            PipelineNodeSerial::SerialSingle(c) => {
                push_unique(acc, &c.module);
                proof {
                    assert(acc.deep_view().to_set() =~= old(acc).deep_view().to_set().union(
                        set![c.module@],
                    ));
                }
            },
            PipelineNodeSerial::SerialMultiple(nodes) => {
                proof {
                    lemma_parallel_views_len(nodes@);
                    assert(spec_parallel_views(nodes@).take(0) =~= Seq::<ParallelView>::empty());
                    assert(old(acc).deep_view().to_set().union(Set::empty()) =~= old(
                        acc,
                    ).deep_view().to_set());
                }
                let mut i: usize = 0;
                while i < nodes.len()
                    invariant
                        0 <= i <= nodes@.len(),
                        *self == PipelineNodeSerial::SerialMultiple(*nodes),
                        spec_parallel_views(nodes@).len() == nodes@.len(),
                        spec_no_duplicates(acc.deep_view()),
                        acc.deep_view().to_set() == old(acc).deep_view().to_set().union(
                            spec_parallel_list_names(spec_parallel_views(nodes@).take(i as int)),
                        ),
                    decreases nodes@.len() - i,
                {
                    proof {
                        lemma_parallel_views_index(nodes@, i as int);
                        lemma_parallel_height_index(nodes@, i as int);
                    }
                    nodes[i].collect_names(acc);
                    i = i + 1;
                    proof {
                        lemma_parallel_views_len(nodes@);
                        lemma_parallel_list_names_take(spec_parallel_views(nodes@), i as int);
                        assert(old(acc).deep_view().to_set().union(
                            spec_parallel_list_names(
                                spec_parallel_views(nodes@).take(i - 1),
                            ),
                        ).union(
                            spec_parallel_module_names(spec_parallel_views(nodes@)[i - 1]),
                        ) =~= old(acc).deep_view().to_set().union(
                            spec_parallel_list_names(spec_parallel_views(nodes@).take(i as int)),
                        ));
                    }
                }
                proof {
                    lemma_parallel_views_len(nodes@);
                    assert(spec_parallel_views(nodes@).take(nodes@.len() as int)
                        =~= spec_parallel_views(nodes@));
                }
            },
        }
    }
}

impl PipelineNodeParallel {
    /// Every module name the subtree mentions, without duplicates.
    pub fn module_names(&self) -> (r: Vec<Vec<u8>>)
        ensures
            spec_no_duplicates(r.deep_view()),
            r.deep_view().to_set() == spec_parallel_module_names(spec_parallel_view(*self)),
    {
        let mut acc: Vec<Vec<u8>> = Vec::new();
        proof {
            assert(acc.deep_view().to_set() =~= Set::<Seq<u8>>::empty());
        }
        self.collect_names(&mut acc);
        proof {
            assert(Set::<Seq<u8>>::empty().union(
                spec_parallel_module_names(spec_parallel_view(*self)),
            ) =~= spec_parallel_module_names(spec_parallel_view(*self)));
        }
        acc
    }

    fn collect_names(&self, acc: &mut Vec<Vec<u8>>)
        requires
            spec_no_duplicates(old(acc).deep_view()),
        ensures
            spec_no_duplicates(final(acc).deep_view()),
            final(acc).deep_view().to_set() == old(acc).deep_view().to_set().union(
                spec_parallel_module_names(spec_parallel_view(*self)),
            ),
        decreases spec_parallel_height(*self),
    {
        match self {
            PipelineNodeParallel::ParallelSingle(c) => {
                push_unique(acc, &c.module);
                proof {
                    assert(acc.deep_view().to_set() =~= old(acc).deep_view().to_set().union(
                        set![c.module@],
                    ));
                }
            },
            PipelineNodeParallel::ParallelMultiple(nodes) => {
                proof {
                    lemma_serial_views_len(nodes@);
                    assert(spec_serial_views(nodes@).take(0) =~= Seq::<SerialView>::empty());
                    assert(old(acc).deep_view().to_set().union(Set::empty()) =~= old(
                        acc,
                    ).deep_view().to_set());
                }
                let mut i: usize = 0;
                while i < nodes.len()
                    invariant
                        0 <= i <= nodes@.len(),
                        *self == PipelineNodeParallel::ParallelMultiple(*nodes),
                        spec_serial_views(nodes@).len() == nodes@.len(),
                        spec_no_duplicates(acc.deep_view()),
                        acc.deep_view().to_set() == old(acc).deep_view().to_set().union(
                            spec_serial_list_names(spec_serial_views(nodes@).take(i as int)),
                        ),
                    decreases nodes@.len() - i,
                {
                    proof {
                        lemma_serial_views_index(nodes@, i as int);
                        lemma_serial_height_index(nodes@, i as int);
                    }
                    nodes[i].collect_names(acc);
                    i = i + 1;
                    proof {
                        lemma_serial_views_len(nodes@);
                        lemma_serial_list_names_take(spec_serial_views(nodes@), i as int);
                        assert(old(acc).deep_view().to_set().union(
                            spec_serial_list_names(spec_serial_views(nodes@).take(i - 1)),
                        ).union(
                            spec_serial_module_names(spec_serial_views(nodes@)[i - 1]),
                        ) =~= old(acc).deep_view().to_set().union(
                            spec_serial_list_names(spec_serial_views(nodes@).take(i as int)),
                        ));
                    }
                }
                proof {
                    lemma_serial_views_len(nodes@);
                    assert(spec_serial_views(nodes@).take(nodes@.len() as int)
                        =~= spec_serial_views(nodes@));
                }
            },
        }
    }
}

/// Extending a prefix by one element adds that element's names.
proof fn lemma_parallel_list_names_take(children: Seq<ParallelView>, i: int)
    requires
        0 < i <= children.len(),
    ensures
        spec_parallel_list_names(children.take(i)) == spec_parallel_list_names(
            children.take(i - 1),
        ).union(spec_parallel_module_names(children[i - 1])),
    decreases i,
{
    if i == 1 {
        reveal_with_fuel(spec_parallel_list_names, 3);
        assert(children.take(1).drop_first() =~= children.take(0));
        assert(children.take(0) =~= Seq::<ParallelView>::empty());
        assert(children.take(1)[0] == children[0]);
        assert(spec_parallel_list_names(children.take(1))
            == spec_parallel_module_names(children[0]).union(Set::empty()));
        assert(spec_parallel_module_names(children[0]).union(Set::empty())
            =~= Set::empty().union(spec_parallel_module_names(children[0])));
    } else {
        lemma_parallel_list_names_take(children.drop_first(), i - 1);
        assert(children.take(i).drop_first() =~= children.drop_first().take(i - 1));
        assert(children.take(i - 1).drop_first() =~= children.drop_first().take(i - 2));
        assert(children.take(i)[0] == children[0]);
        assert(children.take(i - 1)[0] == children[0]);
        assert(children.drop_first()[i - 2] == children[i - 1]);
        assert(spec_parallel_module_names(children[0]).union(
            spec_parallel_list_names(children.drop_first().take(i - 2)).union(
                spec_parallel_module_names(children[i - 1]),
            ),
        ) =~= spec_parallel_module_names(children[0]).union(
            spec_parallel_list_names(children.drop_first().take(i - 2)),
        ).union(spec_parallel_module_names(children[i - 1])));
    }
}

/// Extending a prefix by one element adds that element's names.
proof fn lemma_serial_list_names_take(children: Seq<SerialView>, i: int)
    requires
        0 < i <= children.len(),
    ensures
        spec_serial_list_names(children.take(i)) == spec_serial_list_names(
            children.take(i - 1),
        ).union(spec_serial_module_names(children[i - 1])),
    decreases i,
{
    if i == 1 {
        reveal_with_fuel(spec_serial_list_names, 3);
        assert(children.take(1).drop_first() =~= children.take(0));
        assert(children.take(0) =~= Seq::<SerialView>::empty());
        assert(children.take(1)[0] == children[0]);
        assert(spec_serial_list_names(children.take(1))
            == spec_serial_module_names(children[0]).union(Set::empty()));
        assert(spec_serial_module_names(children[0]).union(Set::empty())
            =~= Set::empty().union(spec_serial_module_names(children[0])));
    } else {
        lemma_serial_list_names_take(children.drop_first(), i - 1);
        assert(children.take(i).drop_first() =~= children.drop_first().take(i - 1));
        assert(children.take(i - 1).drop_first() =~= children.drop_first().take(i - 2));
        assert(children.take(i)[0] == children[0]);
        assert(children.take(i - 1)[0] == children[0]);
        assert(children.drop_first()[i - 2] == children[i - 1]);
        assert(spec_serial_module_names(children[0]).union(
            spec_serial_list_names(children.drop_first().take(i - 2)).union(
                spec_serial_module_names(children[i - 1]),
            ),
        ) =~= spec_serial_module_names(children[0]).union(
            spec_serial_list_names(children.drop_first().take(i - 2)),
        ).union(spec_serial_module_names(children[i - 1])));
    }
}

} // verus!
