use std::collections::HashMap;
use vstd::prelude::*;
use crate::crawl::reachable;
use crate::store::{lookup, DB};
use crate::types::{Item, ItemView};

verus! {

broadcast use vstd::std_specs::hash::group_hash_axioms;

/// One step in laying out a thread of comments: a comment begins, with its
/// replies to follow, or the comment begun last ends.
pub enum CommentStep {
    /// A comment begins.
    Enter(Item),
    /// The comment that began last and has not ended yet ends.
    Leave,
}

/// The mathematical value of a [`CommentStep`].
pub ghost enum StepView {
    Enter(ItemView),
    Leave,
}

impl View for CommentStep {
    type V = StepView;

    open spec fn view(&self) -> StepView {
        match self {
            CommentStep::Enter(item) => StepView::Enter(item@),
            CommentStep::Leave => StepView::Leave,
        }
    }
}

/// The values of a list of steps.
pub open spec fn step_views(steps: Seq<CommentStep>) -> Seq<StepView> {
    Seq::new(steps.len(), |i: int| steps[i]@)
}

/// The values of the items of a map.
pub open spec fn views_of(m: Map<u64, Item>) -> Map<u64, ItemView> {
    Map::new(|id: u64| m.contains_key(id), |id: u64| m[id]@)
}

/// `id` can be reached from `kids` along child identifiers of items in
/// `items`.
pub open spec fn descendant(kids: Seq<u64>, items: Map<u64, ItemView>, id: u64) -> bool {
    exists|path: Seq<u64>| reachable(kids, items, path) && #[trigger] path.last() == id
}

/// A comment is shown if it is among `items` and has an author.
pub open spec fn shown(items: Map<u64, ItemView>, id: u64) -> bool {
    items.contains_key(id) && items[id].by is Some
}

/// The steps that lay out the comments `kids` and all below them.
///
/// Each shown comment is entered, followed by the layout of its own
/// children, and left. A comment is not laid out again below itself: `path`
/// holds the comments entered and not yet left. `depth` bounds the nesting
/// that is left.
pub open spec fn thread(
    items: Map<u64, ItemView>,
    kids: Seq<u64>,
    path: Seq<u64>,
    depth: nat,
) -> Seq<StepView>
    decreases depth, kids.len(),
{
    if kids.len() == 0 {
        Seq::empty()
    } else {
        let id = kids.last();
        let before = thread(items, kids.drop_last(), path, depth);
        if depth > 0 && shown(items, id) && !path.contains(id) {
            before + seq![StepView::Enter(items[id])] + thread(
                items,
                items[id].kids,
                path.push(id),
                (depth - 1) as nat,
            ) + seq![StepView::Leave]
        } else {
            before
        }
    }
}

/// Whether `id` is among `path`.
fn on_path(path: &Vec<u64>, id: u64) -> (r: bool)
    ensures
        r == path@.contains(id),
{
    let mut i: usize = 0;
    while i < path.len()
        invariant
            i <= path.len(),
            forall|k: int| 0 <= k < i ==> path@[k] != id,
        decreases path.len() - i,
    {
        if path[i] == id {
            return true;
        }
        i += 1;
    }
    false
}

/// Appends to `out` the layout of the comments below `item`, taken from
/// `items`.
pub fn render_comments_inner(
    item: &Item,
    items: &HashMap<u64, Item>,
    path: &mut Vec<u64>,
    depth: usize,
    out: &mut Vec<CommentStep>,
)
    ensures
        final(path)@ == old(path)@,
        step_views(final(out)@) == step_views(old(out)@) + thread(
            views_of(items@),
            item@.kids,
            old(path)@,
            depth as nat,
        ),
    decreases depth, item.kids.len(),
{
    let ghost map = views_of(items@);
    let ghost start = step_views(out@);
    let mut i: usize = 0;
    assert(item.kids@.take(0) =~= Seq::<u64>::empty());
    assert(start + thread(map, item.kids@.take(0), path@, depth as nat) =~= start);
    while i < item.kids.len()
        invariant
            i <= item.kids.len(),
            map == views_of(items@),
            path@ == old(path)@,
            step_views(out@) == start + thread(map, item.kids@.take(i as int), path@, depth as nat),
        decreases item.kids.len() - i,
    {
        let id = item.kids[i];
        let ghost before = step_views(out@);
        proof {
            assert(item.kids@.take(i + 1).drop_last() =~= item.kids@.take(i as int));
            assert(item.kids@.take(i + 1).last() == id);
        }
        if depth > 0 && !on_path(path, id) {
            match items.get(&id) {
                Some(comment) => {
                    if comment.by.is_some() {
                        assert(shown(map, id));
                        assert(map[id] == comment@);
                        out.push(CommentStep::Enter(comment.clone()));
                        let ghost entered = step_views(out@);
                        assert(entered =~= before + seq![StepView::Enter(map[id])]);
                        path.push(id);
                        render_comments_inner(comment, items, path, depth - 1, out);
                        path.pop();
                        assert(path@ =~= old(path)@);
                        let ghost inner = step_views(out@);
                        out.push(CommentStep::Leave);
                        assert(step_views(out@) =~= inner + seq![StepView::Leave]);
                    } else {
                        assert(!shown(map, id));
                    }
                },
                None => {
                    assert(!shown(map, id));
                },
            }
        }
        i += 1;
    }
    assert(item.kids@.take(i as int) =~= item.kids@);
}

/// What [`collect_comments`] holds for sure: each item gathered is the
/// store's item of that identifier and can be reached from `kids`.
pub open spec fn gathered_from(
    got: Map<u64, Item>,
    kids: Seq<u64>,
    items: Map<u64, ItemView>,
) -> bool {
    forall|id: u64| #[trigger]
        got.contains_key(id) ==> lookup(items, id) == Some(got[id]@) && descendant(kids, items, id)
}

/// Everything of `kids` is gathered, waits in `queue`, or is not stored.
spec fn accounted(
    kids: Seq<u64>,
    got: Map<u64, Item>,
    queue: Seq<u64>,
    items: Map<u64, ItemView>,
) -> bool {
    forall|j: int|
        0 <= j < kids.len() ==> got.contains_key(#[trigger] kids[j]) || queue.contains(kids[j])
            || !items.contains_key(kids[j])
}

/// The children of everything gathered are accounted for.
spec fn closed_under_kids(got: Map<u64, Item>, queue: Seq<u64>, items: Map<u64, ItemView>) -> bool {
    forall|id: u64| #[trigger] got.contains_key(id) ==> accounted(got[id]@.kids, got, queue, items)
}

proof fn lemma_descendant_of_kid(kids: Seq<u64>, items: Map<u64, ItemView>, j: int)
    requires
        0 <= j < kids.len(),
    ensures
        descendant(kids, items, kids[j]),
{
    let path = seq![kids[j]];
    assert(path[0] == kids[j]);
    assert(reachable(kids, items, path));
    assert(path.last() == kids[j]);
}

proof fn lemma_descendant_step(kids: Seq<u64>, items: Map<u64, ItemView>, id: u64, j: int)
    requires
        descendant(kids, items, id),
        items.contains_key(id),
        0 <= j < items[id].kids.len(),
    ensures
        descendant(kids, items, items[id].kids[j]),
{
    let path = choose|path: Seq<u64>| reachable(kids, items, path) && #[trigger] path.last() == id;
    let kid = items[id].kids[j];
    let longer = path.push(kid);
    assert(longer[0] == path[0]);
    assert forall|i: int| 0 <= i < longer.len() - 1 implies items.contains_key(
        #[trigger] longer[i],
    ) && items[longer[i]].kids.contains(longer[i + 1]) by {
        if i < path.len() - 1 {
            assert(longer[i] == path[i]);
            assert(longer[i + 1] == path[i + 1]);
            assert(items.contains_key(path[i]));
        } else {
            assert(longer[i] == id);
            assert(longer[i + 1] == kid);
        }
    }
    assert(reachable(kids, items, longer));
    assert(longer.last() == kid);
}

/// With nothing left in the queue, every stored identifier up to position
/// `k` of a path from `kids` is gathered.
proof fn lemma_path_gathered(
    kids: Seq<u64>,
    got: Map<u64, Item>,
    items: Map<u64, ItemView>,
    path: Seq<u64>,
    k: int,
)
    requires
        gathered_from(got, kids, items),
        accounted(kids, got, Seq::<u64>::empty(), items),
        closed_under_kids(got, Seq::<u64>::empty(), items),
        reachable(kids, items, path),
        0 <= k < path.len(),
        items.contains_key(path[k]),
    ensures
        got.contains_key(path[k]),
    decreases k,
{
    let none = Seq::<u64>::empty();
    if k == 0 {
        let j = choose|j: int| 0 <= j < kids.len() && kids[j] == path[0];
        assert(got.contains_key(kids[j]) || none.contains(kids[j]) || !items.contains_key(kids[j]));
    } else {
        let parent = path[k - 1];
        assert(items.contains_key(parent));
        lemma_path_gathered(kids, got, items, path, k - 1);
        assert(got.contains_key(parent));
        assert(got[parent]@ == items[parent]);
        let below = got[parent]@.kids;
        assert(accounted(below, got, none, items));
        let j = choose|j: int| 0 <= j < below.len() && below[j] == path[k];
        assert(got.contains_key(below[j]) || none.contains(below[j]) || !items.contains_key(
            below[j],
        ));
    }
}

/// Gathers from the store the items that can be reached from the children
/// of `item`, each under its identifier.
///
/// What is gathered is the store's, and can be reached. While the store is
/// within its limit, reading leaves it as it is, and everything stored
/// that can be reached is gathered.
pub fn collect_comments(item: &Item, db: &mut DB) -> (r: HashMap<u64, Item>)
    requires
        old(db).wf(),
    ensures
        final(db).wf(),
        final(db).limit() == old(db).limit(),
        final(db).top_ids() == old(db).top_ids(),
        final(db).items().submap_of(old(db).items()),
        old(db).within_limit() ==> final(db).items() == old(db).items(),
        gathered_from(r@, item@.kids, old(db).items()),
        old(db).within_limit() ==> forall|id: u64|
            old(db).items().contains_key(id) && #[trigger] descendant(
                item@.kids,
                old(db).items(),
                id,
            ) ==> r@.contains_key(id),
{
    let ghost kids = item@.kids;
    let ghost items = old(db).items();
    let mut queue: Vec<u64> = item.kids.clone();
    let mut got: HashMap<u64, Item> = HashMap::new();
    proof {
        db.lemma_finite();
        assert forall|j: int| 0 <= j < kids.len() implies queue@.contains(#[trigger] kids[j]) by {
            assert(queue@[j] == kids[j]);
        }
        assert forall|i: int| 0 <= i < queue@.len() implies descendant(
            kids,
            items,
            #[trigger] queue@[i],
        ) by {
            lemma_descendant_of_kid(kids, items, i);
        }
    }
    while queue.len() > 0
        invariant
            kids == item@.kids,
            items == old(db).items(),
            items.dom().finite(),
            db.wf(),
            db.limit() == old(db).limit(),
            db.top_ids() == old(db).top_ids(),
            db.items().submap_of(items),
            old(db).within_limit() ==> db.items() == items,
            gathered_from(got@, kids, items),
            got@.dom().finite(),
            got@.dom().subset_of(items.dom()),
            forall|i: int| 0 <= i < queue@.len() ==> descendant(kids, items, #[trigger] queue@[i]),
            old(db).within_limit() ==> accounted(kids, got@, queue@, items),
            old(db).within_limit() ==> closed_under_kids(got@, queue@, items),
        decreases items.dom().len() - got@.dom().len(), queue.len(),
    {
        let ghost queue_before = queue@;
        let ghost got_before = got@;
        let ghost store_before = db.items();
        let id = queue.pop().unwrap();
        assert(queue@ == queue_before.drop_last());
        assert(descendant(kids, items, queue_before[queue_before.len() - 1]));
        proof {
            vstd::set_lib::lemma_len_subset(got@.dom(), items.dom());
        }
        let known = got.contains_key(&id);
        let found = if known {
            None
        } else {
            db.get(id)
        };
        proof {
            assert(db.items().submap_of(items)) by {
                assert forall|k: u64| #[trigger] db.items().dom().contains(k) implies items.dom().contains(
                    k,
                ) && db.items()[k] == items[k] by {
                    assert(store_before.dom().contains(k));
                    assert(store_before[k] == db.items()[k]);
                    assert(items.dom().contains(k));
                }
            }
        }
        match found {
            Some(child) => {
                assert(store_before.dom().contains(id));
                assert(items.dom().contains(id));
                assert(child@ == items[id]);
                let ghost queue_mid = queue@;
                let mut j: usize = 0;
                while j < child.kids.len()
                    invariant
                        j <= child.kids.len(),
                        queue@ == queue_mid + child.kids@.take(j as int),
                    decreases child.kids.len() - j,
                {
                    queue.push(child.kids[j]);
                    j += 1;
                    assert(queue@ =~= queue_mid + child.kids@.take(j as int));
                }
                assert(child.kids@.take(j as int) =~= child.kids@);
                let ghost below = child@.kids;
                got.insert(id, child);
                proof {
                    assert(got@.dom() =~= got_before.dom().insert(id));
                    assert(!got_before.dom().contains(id));
                    assert(got@.dom().len() == got_before.dom().len() + 1);
                    vstd::set_lib::lemma_len_subset(got@.dom(), items.dom());
                    assert forall|x: u64| #[trigger]
                        got@.contains_key(x) implies lookup(items, x) == Some(got@[x]@)
                        && descendant(kids, items, x) by {
                        if x != id {
                            assert(got_before.contains_key(x));
                        }
                    }
                    assert forall|i: int| 0 <= i < queue@.len() implies descendant(
                        kids,
                        items,
                        #[trigger] queue@[i],
                    ) by {
                        if i < queue_mid.len() {
                            assert(queue@[i] == queue_before[i]);
                        } else {
                            assert(queue@[i] == below[i - queue_mid.len()]);
                            lemma_descendant_step(kids, items, id, i - queue_mid.len());
                        }
                    }
                    assert forall|x: u64| queue_before.contains(x) implies queue@.contains(x) || x
                        == id by {
                        let i = choose|i: int| 0 <= i < queue_before.len() && queue_before[i] == x;
                        if i < queue_mid.len() {
                            assert(queue@[i] == x);
                        }
                    }
                    assert forall|j: int| 0 <= j < below.len() implies queue@.contains(
                        #[trigger] below[j],
                    ) by {
                        assert(queue@[queue_mid.len() + j] == below[j]);
                    }
                    if old(db).within_limit() {
                        assert(accounted(kids, got_before, queue_before, items));
                        assert forall|j: int| 0 <= j < kids.len() implies got@.contains_key(
                            #[trigger] kids[j],
                        ) || queue@.contains(kids[j]) || !items.contains_key(kids[j]) by {
                            assert(got_before.contains_key(kids[j]) || queue_before.contains(
                                kids[j],
                            ) || !items.contains_key(kids[j]));
                        }
                        assert forall|x: u64| #[trigger] got@.contains_key(x) implies accounted(
                            got@[x]@.kids,
                            got@,
                            queue@,
                            items,
                        ) by {
                            let these = got@[x]@.kids;
                            if x != id {
                                assert(got_before.contains_key(x));
                                assert(accounted(these, got_before, queue_before, items));
                                assert forall|j: int| 0 <= j < these.len() implies got@.contains_key(
                                    #[trigger] these[j],
                                ) || queue@.contains(these[j]) || !items.contains_key(
                                    these[j],
                                ) by {
                                    assert(got_before.contains_key(these[j])
                                        || queue_before.contains(these[j]) || !items.contains_key(
                                        these[j],
                                    ));
                                }
                            }
                        }
                    }
                }
            },
            None => {
                proof {
                    assert forall|x: u64| queue_before.contains(x) implies queue@.contains(x) || x
                        == id by {
                        let i = choose|i: int| 0 <= i < queue_before.len() && queue_before[i] == x;
                        if i < queue@.len() {
                            assert(queue@[i] == x);
                        }
                    }
                    if old(db).within_limit() {
                        assert(known || !items.contains_key(id));
                        assert(accounted(kids, got@, queue_before, items));
                        assert forall|j: int| 0 <= j < kids.len() implies got@.contains_key(
                            #[trigger] kids[j],
                        ) || queue@.contains(kids[j]) || !items.contains_key(kids[j]) by {
                            assert(got@.contains_key(kids[j]) || queue_before.contains(kids[j])
                                || !items.contains_key(kids[j]));
                        }
                        assert forall|x: u64| #[trigger] got@.contains_key(x) implies accounted(
                            got@[x]@.kids,
                            got@,
                            queue@,
                            items,
                        ) by {
                            let these = got@[x]@.kids;
                            assert(accounted(these, got@, queue_before, items));
                            assert forall|j: int| 0 <= j < these.len() implies got@.contains_key(
                                #[trigger] these[j],
                            ) || queue@.contains(these[j]) || !items.contains_key(these[j]) by {
                                assert(got@.contains_key(these[j]) || queue_before.contains(
                                    these[j],
                                ) || !items.contains_key(these[j]));
                            }
                        }
                    }
                }
            },
        }
    }
    proof {
        assert(queue@ =~= Seq::<u64>::empty());
        if old(db).within_limit() {
            assert forall|id: u64|
                items.contains_key(id) && #[trigger] descendant(
                    kids,
                    items,
                    id,
                ) implies got@.contains_key(id) by {
                let path = choose|path: Seq<u64>|
                    reachable(kids, items, path) && #[trigger] path.last() == id;
                lemma_path_gathered(kids, got@, items, path, path.len() - 1);
            }
        }
    }
    got
}

/// The layout of the comments below `item`, as far as the store holds
/// them: whatever can be reached from the children of `item` is gathered
/// from the store, and the shown comments among it are laid out in the
/// order of the child lists, each about its replies. `None` where the
/// store holds nothing below `item` or no comment is shown.
pub fn render_comments(item: &Item, db: &mut DB) -> (r: Option<Vec<CommentStep>>)
    requires
        old(db).wf(),
    ensures
        final(db).wf(),
        final(db).limit() == old(db).limit(),
        final(db).top_ids() == old(db).top_ids(),
        final(db).items().submap_of(old(db).items()),
        old(db).within_limit() ==> final(db).items() == old(db).items(),
        exists|got: Map<u64, Item>|
            {
                &&& gathered_from(got, item@.kids, old(db).items())
                &&& got.dom().finite()
                &&& old(db).within_limit() ==> forall|id: u64|
                    old(db).items().contains_key(id) && #[trigger] descendant(
                        item@.kids,
                        old(db).items(),
                        id,
                    ) ==> got.contains_key(id)
                &&& {
                    let steps = thread(
                        views_of(got),
                        item@.kids,
                        Seq::<u64>::empty(),
                        got.dom().len(),
                    );
                    match r {
                        Some(out) => step_views(out@) == steps && steps.len() > 0,
                        None => steps.len() == 0,
                    }
                }
            },
{
    let items = collect_comments(item, db);
    if items.len() == 0 {
        proof {
            assert(items@.dom().len() == 0);
            lemma_thread_without_depth(views_of(items@), item@.kids, Seq::<u64>::empty());
        }
        return None;
    }
    let mut out: Vec<CommentStep> = Vec::new();
    let mut path: Vec<u64> = Vec::new();
    assert(step_views(out@) =~= Seq::<StepView>::empty());
    render_comments_inner(item, &items, &mut path, items.len(), &mut out);
    proof {
        let steps = thread(views_of(items@), item@.kids, Seq::<u64>::empty(), items@.dom().len());
        assert(step_views(out@) =~= steps);
    }
    if out.len() == 0 {
        None
    } else {
        Some(out)
    }
}

/// Without depth left, nothing is laid out.
proof fn lemma_thread_without_depth(items: Map<u64, ItemView>, kids: Seq<u64>, path: Seq<u64>)
    ensures
        thread(items, kids, path, 0) == Seq::<StepView>::empty(),
    decreases kids.len(),
{
    if kids.len() > 0 {
        lemma_thread_without_depth(items, kids.drop_last(), path);
    }
}

} // verus!
