//! Systems: behavior units over tag-selected entities.
//!
//! A system declares, per tag, which component types it reads and which it
//! writes. Executing it is a three-phase protocol: resolve each declared
//! tag to its current members (a snapshot), fetch a shared view per
//! declared read pair and an exclusive view per declared write pair, then
//! invoke the system on the fetched views and write the exclusive views
//! back. A member lacking a declared component is reported as a lookup
//! miss at fetch time, and overlapping read/write declarations surface as
//! an access conflict at the slot where they collide; either way every
//! view taken so far is given back and the world's values are left as
//! they were.

use vstd::prelude::*;
use crate::storage::BorrowState;
use crate::world::lemma_read_view_determined;
use crate::world::lemma_write_view_determined;
use crate::world::ReadAccess;
use crate::world::World;
use crate::world::WriteAccess;
use crate::CompID;
use crate::Component;
use crate::EcsError;
use crate::EntityID;
use crate::TagID;

verus! {

/// One declared access: the tag whose members are selected, the component
/// type fetched for each member, and whether it is written or only read.
#[derive(Clone, Copy, Debug, PartialEq, Eq, Structural)]
pub struct AccessDecl {
    /// Members of this tag are selected.
    pub tag: TagID,
    /// This component type is fetched for each selected entity.
    pub comp: CompID,
    /// Whether the system mutates the fetched slots.
    pub write: bool,
}

/// How many of the shared views in `rs` are views of slot `(comp, id)`.
pub open spec fn read_views_at<C: Component>(
    rs: Seq<ReadAccess<C>>,
    comp: CompID,
    id: EntityID,
) -> nat
    decreases rs.len(),
{
    if rs.len() == 0 {
        0
    } else {
        read_views_at(rs.drop_last(), comp, id) + (if rs.last().comp_key() == comp
            && rs.last().entity() == id {
            1nat
        } else {
            0nat
        })
    }
}

/// How many of the exclusive views in `ws` are views of slot `(comp, id)`.
pub open spec fn write_views_at<C: Component>(
    ws: Seq<WriteAccess<C>>,
    comp: CompID,
    id: EntityID,
) -> nat
    decreases ws.len(),
{
    if ws.len() == 0 {
        0
    } else {
        write_views_at(ws.drop_last(), comp, id) + (if ws.last().comp_key() == comp
            && ws.last().entity() == id {
            1nat
        } else {
            0nat
        })
    }
}

/// The working value of the exclusive view of slot `(comp, id)` in `ws`.
pub open spec fn write_view_value<C: Component>(
    ws: Seq<WriteAccess<C>>,
    comp: CompID,
    id: EntityID,
) -> C
    decreases ws.len(),
{
    if ws.len() == 0 {
        arbitrary()
    } else if ws.last().comp_key() == comp && ws.last().entity() == id {
        ws.last().val()
    } else {
        write_view_value(ws.drop_last(), comp, id)
    }
}

/// How often slot `(comp, id)` occurs in a list of written pairs.
pub open spec fn pair_count(s: Seq<(CompID, EntityID)>, comp: CompID, id: EntityID) -> nat
    decreases s.len(),
{
    if s.len() == 0 {
        0
    } else {
        pair_count(s.drop_last(), comp, id) + (if s.last() == (comp, id) {
            1nat
        } else {
            0nat
        })
    }
}

/// The borrow state that a slot with the given outstanding views must be
/// in.
pub open spec fn account_borrow<C: Component>(
    rs: Seq<ReadAccess<C>>,
    ws: Seq<WriteAccess<C>>,
    comp: CompID,
    id: EntityID,
) -> BorrowState {
    if write_views_at(ws, comp, id) == 1 {
        BorrowState::Exclusive
    } else if read_views_at(rs, comp, id) > 0 {
        BorrowState::Shared(read_views_at(rs, comp, id) as u32)
    } else {
        BorrowState::Free
    }
}

/// The world's borrow states account exactly for the outstanding views:
/// an exclusively viewed slot is `Exclusive` (and viewed by no reader), a
/// slot with `n > 0` shared views is `Shared(n)`, and every other slot is
/// free.
pub open spec fn views_account<C: Component>(
    w: World<C>,
    rs: Seq<ReadAccess<C>>,
    ws: Seq<WriteAccess<C>>,
) -> bool {
    forall|comp: CompID, id: EntityID|
        {
            &&& write_views_at(ws, comp, id) <= 1
            &&& (write_views_at(ws, comp, id) == 1 ==> read_views_at(rs, comp, id) == 0)
            &&& read_views_at(rs, comp, id) <= u32::MAX
            &&& #[trigger] w.comp_borrow(comp, id) == account_borrow(rs, ws, comp, id)
        }
}

/// The accounting, spelled out at one slot.
proof fn lemma_account_at<C: Component>(
    w: World<C>,
    rs: Seq<ReadAccess<C>>,
    ws: Seq<WriteAccess<C>>,
    comp: CompID,
    id: EntityID,
)
    requires
        views_account(w, rs, ws),
    ensures
        write_views_at(ws, comp, id) <= 1,
        write_views_at(ws, comp, id) == 1 ==> read_views_at(rs, comp, id) == 0,
        read_views_at(rs, comp, id) <= u32::MAX,
        w.comp_borrow(comp, id) == account_borrow(rs, ws, comp, id),
{
    assert(w.comp_borrow(comp, id) == account_borrow(rs, ws, comp, id));
}

/// Every outstanding exclusive view still carries the value its slot
/// holds, so giving it back restores the world exactly.
pub open spec fn write_views_fresh<C: Component>(w: World<C>, ws: Seq<WriteAccess<C>>) -> bool {
    forall|k: int| 0 <= k < ws.len() ==> w.comp_value(
        (#[trigger] ws[k]).comp_key(),
        ws[k].entity(),
    ) == Some(ws[k].val())
}

/// The worlds' borrow states agree everywhere but at one slot.
pub open spec fn borrows_framed<C: Component>(
    pre: World<C>,
    post: World<C>,
    comp: CompID,
    id: EntityID,
) -> bool {
    forall|c: CompID, i: EntityID| !(c == comp && i == id)
        ==> #[trigger] post.comp_borrow(c, i) == pre.comp_borrow(c, i)
            && post.comp_value(c, i) == pre.comp_value(c, i)
}

/// Appending a shared view raises its slot's count by one and no other.
proof fn lemma_read_views_push<C: Component>(rs: Seq<ReadAccess<C>>, g: ReadAccess<C>)
    ensures
        forall|comp: CompID, id: EntityID| #[trigger] read_views_at(rs.push(g), comp, id)
            == read_views_at(rs, comp, id) + (if g.comp_key() == comp && g.entity() == id {
            1int
        } else {
            0int
        }),
{
    assert(rs.push(g).drop_last() =~= rs);
    assert(rs.push(g).last() == g);
}

/// Appending an exclusive view raises its slot's count by one and no
/// other, and it becomes the view whose value counts for its slot.
proof fn lemma_write_views_push<C: Component>(ws: Seq<WriteAccess<C>>, g: WriteAccess<C>)
    ensures
        forall|comp: CompID, id: EntityID| #[trigger] write_views_at(ws.push(g), comp, id)
            == write_views_at(ws, comp, id) + (if g.comp_key() == comp && g.entity() == id {
            1int
        } else {
            0int
        }),
        forall|comp: CompID, id: EntityID| !(g.comp_key() == comp && g.entity() == id)
            ==> #[trigger] write_view_value(ws.push(g), comp, id)
                == write_view_value(ws, comp, id),
{
    assert(ws.push(g).drop_last() =~= ws);
    assert(ws.push(g).last() == g);
}

/// When every exclusive view is fresh, the value counted for a slot with
/// an outstanding exclusive view is the slot's own value.
proof fn lemma_fresh_view_value<C: Component>(
    w: World<C>,
    ws: Seq<WriteAccess<C>>,
    comp: CompID,
    id: EntityID,
)
    requires
        write_views_fresh(w, ws),
        write_views_at(ws, comp, id) >= 1,
    ensures
        w.comp_value(comp, id) == Some(write_view_value(ws, comp, id)),
    decreases ws.len(),
{
    if ws.last().comp_key() == comp && ws.last().entity() == id {
        assert(w.comp_value(comp, id) == Some(ws.last().val()));
    } else {
        assert(forall|k: int| 0 <= k < ws.drop_last().len()
            ==> #[trigger] ws.drop_last()[k] == ws[k]);
        lemma_fresh_view_value(w, ws.drop_last(), comp, id);
    }
}

/// A slot with an exclusive view at some index counts at least one
/// exclusive view.
proof fn lemma_write_views_at_index<C: Component>(ws: Seq<WriteAccess<C>>, k: int)
    requires
        0 <= k < ws.len(),
    ensures
        write_views_at(ws, ws[k].comp_key(), ws[k].entity()) >= 1,
    decreases ws.len(),
{
    if k < ws.len() - 1 {
        assert(forall|j: int| 0 <= j < ws.drop_last().len()
            ==> #[trigger] ws.drop_last()[j] == ws[j]);
        lemma_write_views_at_index(ws.drop_last(), k);
    }
}

/// Two lists of exclusive views over the same slots, pair for pair, count
/// the same at every slot.
proof fn lemma_write_views_congruent<C: Component>(
    ws1: Seq<WriteAccess<C>>,
    ws2: Seq<WriteAccess<C>>,
)
    requires
        ws1.len() == ws2.len(),
        forall|k: int| 0 <= k < ws1.len() ==> (#[trigger] ws1[k]).comp_key()
            == ws2[k].comp_key() && ws1[k].entity() == ws2[k].entity(),
    ensures
        forall|comp: CompID, id: EntityID| #[trigger] write_views_at(ws1, comp, id)
            == write_views_at(ws2, comp, id),
    decreases ws1.len(),
{
    if ws1.len() > 0 {
        assert(forall|k: int| 0 <= k < ws1.drop_last().len()
            ==> #[trigger] ws1.drop_last()[k] == ws1[k]);
        assert(forall|k: int| 0 <= k < ws2.drop_last().len()
            ==> #[trigger] ws2.drop_last()[k] == ws2[k]);
        lemma_write_views_congruent(ws1.drop_last(), ws2.drop_last());
        assert forall|comp: CompID, id: EntityID| #[trigger] write_views_at(ws1, comp, id)
            == write_views_at(ws2, comp, id) by {
            assert(write_views_at(ws1.drop_last(), comp, id)
                == write_views_at(ws2.drop_last(), comp, id));
            assert(ws1.last() == ws1[ws1.len() - 1]);
            assert(ws2.last() == ws2[ws2.len() - 1]);
        }
    }
}

/// A pair list that mirrors a list of exclusive views, pair for pair,
/// counts the same at every slot.
proof fn lemma_pair_count_mirrors<C: Component>(
    s: Seq<(CompID, EntityID)>,
    ws: Seq<WriteAccess<C>>,
)
    requires
        s.len() == ws.len(),
        forall|k: int| 0 <= k < ws.len() ==> #[trigger] s[k]
            == ((ws[k].comp_key(), ws[k].entity())),
    ensures
        forall|comp: CompID, id: EntityID| #[trigger] pair_count(s, comp, id)
            == write_views_at(ws, comp, id),
    decreases s.len(),
{
    if s.len() > 0 {
        assert(forall|k: int| 0 <= k < s.drop_last().len()
            ==> #[trigger] s.drop_last()[k] == s[k]);
        assert(forall|k: int| 0 <= k < ws.drop_last().len()
            ==> #[trigger] ws.drop_last()[k] == ws[k]);
        lemma_pair_count_mirrors(s.drop_last(), ws.drop_last());
        assert forall|comp: CompID, id: EntityID| #[trigger] pair_count(s, comp, id)
            == write_views_at(ws, comp, id) by {
            assert(s.last() == s[s.len() - 1]);
            assert(ws.last() == ws[ws.len() - 1]);
            assert(pair_count(s.drop_last(), comp, id)
                == write_views_at(ws.drop_last(), comp, id));
        }
    }
}

/// One step of the fetch phase: the outcome after also acquiring
/// component `comp` of entity `id`, exclusively or shared, on top of the
/// views already acquired from the quiescent world `w`.
pub open spec fn fetch_step<C: Component>(
    w: World<C>,
    acc: Result<(Seq<ReadAccess<C>>, Seq<WriteAccess<C>>), EcsError>,
    comp: CompID,
    id: EntityID,
    write: bool,
) -> Result<(Seq<ReadAccess<C>>, Seq<WriteAccess<C>>), EcsError> {
    match acc {
        Err(e) => Err(e),
        Ok((rs, ws)) => {
            if !w.registered(comp) {
                Err(EcsError::Unregistered)
            } else if write_views_at(ws, comp, id) > 0 {
                Err(EcsError::Conflict)
            } else if write && read_views_at(rs, comp, id) > 0 {
                Err(EcsError::Conflict)
            } else if w.comp_value(comp, id) is None {
                Err(EcsError::Missing)
            } else if !write && read_views_at(rs, comp, id) == u32::MAX {
                Err(EcsError::Conflict)
            } else if write {
                Ok((rs, ws.push(WriteAccess::of(comp, id, w.comp_value(comp, id)->0))))
            } else {
                Ok((rs.push(ReadAccess::of(comp, id, w.comp_value(comp, id)->0)), ws))
            }
        },
    }
}

/// The outcome after acquiring, on top of `acc`, views for the first
/// `upto` members of declaration `d`'s tag snapshot.
pub open spec fn fetch_decl_sim<C: Component>(
    w: World<C>,
    acc: Result<(Seq<ReadAccess<C>>, Seq<WriteAccess<C>>), EcsError>,
    d: AccessDecl,
    upto: int,
) -> Result<(Seq<ReadAccess<C>>, Seq<WriteAccess<C>>), EcsError>
    decreases upto,
{
    if upto <= 0 {
        acc
    } else {
        fetch_step(
            w,
            fetch_decl_sim(w, acc, d, upto - 1),
            d.comp,
            w.tag_members(d.tag)[upto - 1],
            d.write,
        )
    }
}

/// The outcome of the whole fetch phase of `decls` against the quiescent
/// world `w`: the shared and exclusive views acquired, in declaration
/// order and tag-snapshot order, or the first error met — an
/// unregistered key is a configuration error, a selected entity without
/// the declared component a lookup miss, and overlapping acquisitions of
/// one slot (a second writer, or reader beside writer) an access
/// conflict.
pub open spec fn fetch_sim<C: Component>(w: World<C>, decls: Seq<AccessDecl>) -> Result<
    (Seq<ReadAccess<C>>, Seq<WriteAccess<C>>),
    EcsError,
>
    decreases decls.len(),
{
    if decls.len() == 0 {
        Ok((Seq::empty(), Seq::empty()))
    } else {
        fetch_decl_sim(
            w,
            fetch_sim(w, decls.drop_last()),
            decls.last(),
            w.tag_members(decls.last().tag).len() as int,
        )
    }
}

/// A failed accumulator stays failed through any further acquisitions of
/// one declaration.
proof fn lemma_decl_sim_absorbs_err<C: Component>(
    w: World<C>,
    acc: Result<(Seq<ReadAccess<C>>, Seq<WriteAccess<C>>), EcsError>,
    d: AccessDecl,
    m: int,
    n: int,
)
    requires
        0 <= m <= n,
        fetch_decl_sim(w, acc, d, m) is Err,
    ensures
        fetch_decl_sim(w, acc, d, n) == fetch_decl_sim(w, acc, d, m),
    decreases n - m,
{
    if n > m {
        lemma_decl_sim_absorbs_err(w, acc, d, m, n - 1);
    }
}

/// Once the fetch failed on a prefix of the declarations, the whole
/// fetch fails the same way.
proof fn lemma_sim_absorbs_err<C: Component>(w: World<C>, decls: Seq<AccessDecl>, j: int)
    requires
        0 <= j <= decls.len(),
        fetch_sim(w, decls.take(j)) is Err,
    ensures
        fetch_sim(w, decls) == fetch_sim(w, decls.take(j)),
    decreases decls.len() - j,
{
    if j == decls.len() {
        assert(decls.take(j) =~= decls);
    } else {
        assert(decls.take(j + 1).drop_last() =~= decls.take(j));
        assert(decls.take(j + 1).last() == decls[j]);
        lemma_decl_sim_absorbs_err(
            w,
            fetch_sim(w, decls.take(j)),
            decls[j],
            0,
            w.tag_members(decls[j].tag).len() as int,
        );
        assert(fetch_sim(w, decls.take(j + 1)) == fetch_sim(w, decls.take(j)));
        lemma_sim_absorbs_err(w, decls, j + 1);
    }
}

/// The value counted for a slot with exactly one exclusive view is that
/// view's working value.
proof fn lemma_write_view_value_at<C: Component>(ws: Seq<WriteAccess<C>>, k: int)
    requires
        0 <= k < ws.len(),
        write_views_at(ws, ws[k].comp_key(), ws[k].entity()) == 1,
    ensures
        write_view_value(ws, ws[k].comp_key(), ws[k].entity()) == ws[k].val(),
    decreases ws.len(),
{
    if k < ws.len() - 1 {
        assert(forall|j: int| 0 <= j < ws.drop_last().len()
            ==> #[trigger] ws.drop_last()[j] == ws[j]);
        lemma_write_views_at_index(ws.drop_last(), k);
        assert(!(ws.last().comp_key() == ws[k].comp_key() && ws.last().entity()
            == ws[k].entity()));
        lemma_write_view_value_at(ws.drop_last(), k);
    }
}

/// Taking an exclusive view of a free slot keeps the accounting exact.
proof fn lemma_account_write_acquire<C: Component>(
    pre: World<C>,
    post: World<C>,
    rs: Seq<ReadAccess<C>>,
    ws: Seq<WriteAccess<C>>,
    g: WriteAccess<C>,
)
    requires
        views_account(pre, rs, ws),
        pre.comp_borrow(g.comp_key(), g.entity()) == BorrowState::Free,
        post.comp_borrow(g.comp_key(), g.entity()) == BorrowState::Exclusive,
        borrows_framed(pre, post, g.comp_key(), g.entity()),
    ensures
        views_account(post, rs, ws.push(g)),
{
    lemma_write_views_push(ws, g);
    assert forall|comp: CompID, id: EntityID|
        {
            &&& write_views_at(ws.push(g), comp, id) <= 1
            &&& (write_views_at(ws.push(g), comp, id) == 1 ==> read_views_at(rs, comp, id)
                == 0)
            &&& read_views_at(rs, comp, id) <= u32::MAX
            &&& #[trigger] post.comp_borrow(comp, id) == account_borrow(
                rs,
                ws.push(g),
                comp,
                id,
            )
        } by {
        lemma_account_at(pre, rs, ws, comp, id);
        if comp == g.comp_key() && id == g.entity() {
            assert(write_views_at(ws, comp, id) == 0);
            assert(read_views_at(rs, comp, id) == 0);
        } else {
            assert(post.comp_borrow(comp, id) == pre.comp_borrow(comp, id));
        }
    }
}

/// Taking a shared view of a free or shared slot keeps the accounting
/// exact.
proof fn lemma_account_read_acquire<C: Component>(
    pre: World<C>,
    post: World<C>,
    rs: Seq<ReadAccess<C>>,
    ws: Seq<WriteAccess<C>>,
    g: ReadAccess<C>,
)
    requires
        views_account(pre, rs, ws),
        pre.comp_borrow(g.comp_key(), g.entity()) != BorrowState::Exclusive,
        read_views_at(rs, g.comp_key(), g.entity()) < u32::MAX,
        post.comp_borrow(g.comp_key(), g.entity()) == BorrowState::Shared(
            (read_views_at(rs, g.comp_key(), g.entity()) + 1) as u32,
        ),
        borrows_framed(pre, post, g.comp_key(), g.entity()),
    ensures
        views_account(post, rs.push(g), ws),
{
    lemma_read_views_push(rs, g);
    assert forall|comp: CompID, id: EntityID|
        {
            &&& write_views_at(ws, comp, id) <= 1
            &&& (write_views_at(ws, comp, id) == 1 ==> read_views_at(rs.push(g), comp, id)
                == 0)
            &&& read_views_at(rs.push(g), comp, id) <= u32::MAX
            &&& #[trigger] post.comp_borrow(comp, id) == account_borrow(
                rs.push(g),
                ws,
                comp,
                id,
            )
        } by {
        lemma_account_at(pre, rs, ws, comp, id);
        lemma_account_at(pre, rs, ws, g.comp_key(), g.entity());
        if comp == g.comp_key() && id == g.entity() {
            assert(write_views_at(ws, comp, id) != 1);
        } else {
            assert(post.comp_borrow(comp, id) == pre.comp_borrow(comp, id));
        }
    }
}

/// Giving the last-taken exclusive view back keeps the accounting exact.
proof fn lemma_account_write_release<C: Component>(
    pre: World<C>,
    post: World<C>,
    rs: Seq<ReadAccess<C>>,
    ws1: Seq<WriteAccess<C>>,
)
    requires
        ws1.len() > 0,
        views_account(pre, rs, ws1),
        post.comp_borrow(ws1.last().comp_key(), ws1.last().entity()) == BorrowState::Free,
        borrows_framed(pre, post, ws1.last().comp_key(), ws1.last().entity()),
    ensures
        views_account(post, rs, ws1.drop_last()),
{
    let g = ws1.last();
    assert forall|comp: CompID, id: EntityID|
        {
            &&& write_views_at(ws1.drop_last(), comp, id) <= 1
            &&& (write_views_at(ws1.drop_last(), comp, id) == 1 ==> read_views_at(
                rs,
                comp,
                id,
            ) == 0)
            &&& read_views_at(rs, comp, id) <= u32::MAX
            &&& #[trigger] post.comp_borrow(comp, id) == account_borrow(
                rs,
                ws1.drop_last(),
                comp,
                id,
            )
        } by {
        lemma_account_at(pre, rs, ws1, comp, id);
        assert(write_views_at(ws1, comp, id) == write_views_at(ws1.drop_last(), comp, id)
            + (if g.comp_key() == comp && g.entity() == id {
            1int
        } else {
            0int
        }));
        if comp == g.comp_key() && id == g.entity() {
            assert(write_views_at(ws1, comp, id) >= 1);
            assert(write_views_at(ws1, comp, id) == 1);
            assert(read_views_at(rs, comp, id) == 0);
        } else {
            assert(post.comp_borrow(comp, id) == pre.comp_borrow(comp, id));
        }
    }
}

/// Giving the last-taken shared view back keeps the accounting exact.
proof fn lemma_account_read_release<C: Component>(
    pre: World<C>,
    post: World<C>,
    rs1: Seq<ReadAccess<C>>,
    ws: Seq<WriteAccess<C>>,
)
    requires
        rs1.len() > 0,
        views_account(pre, rs1, ws),
        post.comp_borrow(rs1.last().comp_key(), rs1.last().entity()) == (if read_views_at(
            rs1.drop_last(),
            rs1.last().comp_key(),
            rs1.last().entity(),
        ) > 0 {
            BorrowState::Shared(read_views_at(
                rs1.drop_last(),
                rs1.last().comp_key(),
                rs1.last().entity(),
            ) as u32)
        } else {
            BorrowState::Free
        }),
        borrows_framed(pre, post, rs1.last().comp_key(), rs1.last().entity()),
    ensures
        views_account(post, rs1.drop_last(), ws),
{
    let g = rs1.last();
    assert forall|comp: CompID, id: EntityID|
        {
            &&& write_views_at(ws, comp, id) <= 1
            &&& (write_views_at(ws, comp, id) == 1 ==> read_views_at(
                rs1.drop_last(),
                comp,
                id,
            ) == 0)
            &&& read_views_at(rs1.drop_last(), comp, id) <= u32::MAX
            &&& #[trigger] post.comp_borrow(comp, id) == account_borrow(
                rs1.drop_last(),
                ws,
                comp,
                id,
            )
        } by {
        lemma_account_at(pre, rs1, ws, comp, id);
        assert(read_views_at(rs1, comp, id) == read_views_at(rs1.drop_last(), comp, id)
            + (if g.comp_key() == comp && g.entity() == id {
            1int
        } else {
            0int
        }));
        if comp == g.comp_key() && id == g.entity() {
            assert(read_views_at(rs1, comp, id) >= 1);
            assert(write_views_at(ws, comp, id) != 1);
        } else {
            assert(post.comp_borrow(comp, id) == pre.comp_borrow(comp, id));
        }
    }
}

/// A system: declares its accesses, then consumes the fetched views.
///
/// `run` may replace the working values of the exclusive views but must
/// leave each view on the slot it was fetched for; the declaration is the
/// only way to choose slots. Both the declaration and the values `run`
/// computes are fixed at specification level, so what an execution does
/// to the world follows from the system's spec functions alone.
pub trait System<C: Component> {
    /// The accesses this system needs, one entry per (tag, component,
    /// mode) triple. A verified system redefines this to its actual
    /// declaration; the default stands for a system that declares
    /// nothing.
    open spec fn spec_declares(&self) -> Seq<AccessDecl> {
        Seq::empty()
    }

    /// The value the view at index `k` of the exclusive views holds after
    /// [`System::run`], as a function of the fetched views. A verified
    /// system redefines this to what its `run` computes.
    open spec fn run_spec(&self, reads: Seq<ReadAccess<C>>, writes: Seq<WriteAccess<C>>, k: int) -> C {
        arbitrary()
    }

    /// The declared accesses, as a vector.
    fn declares(&self) -> (r: Vec<AccessDecl>)
        ensures
            r@ == self.spec_declares(),
    ;

    /// The system's logic: reads the shared views, updates the working
    /// values of the exclusive views to what [`System::run_spec`] says.
    fn run(&self, reads: &Vec<ReadAccess<C>>, writes: &mut Vec<WriteAccess<C>>)
        ensures
            final(writes)@.len() == old(writes)@.len(),
            forall|k: int| 0 <= k < old(writes)@.len()
                ==> (#[trigger] final(writes)@[k]).comp_key() == old(writes)@[k].comp_key()
                    && final(writes)@[k].entity() == old(writes)@[k].entity()
                    && final(writes)@[k].val() == self.run_spec(reads@, old(writes)@, k),
    ;
}

impl<C: Component> World<C> {
    /// Gives every fetched view back. Slots of exclusive views receive
    /// those views' working values; everything else keeps its value.
    fn settle_views(&mut self, reads: Vec<ReadAccess<C>>, writes: Vec<WriteAccess<C>>)
        requires
            old(self).wf(),
            views_account(*old(self), reads@, writes@),
        ensures
            final(self).wf(),
            final(self).quiescent(),
            World::frame_all(*old(self), *final(self)),
            forall|comp: CompID| #[trigger] final(self).registered(comp)
                <==> old(self).registered(comp),
            forall|comp: CompID, id: EntityID| write_views_at(writes@, comp, id) == 0
                ==> #[trigger] final(self).comp_value(comp, id)
                    == old(self).comp_value(comp, id),
            forall|comp: CompID, id: EntityID| write_views_at(writes@, comp, id) == 1
                ==> #[trigger] final(self).comp_value(comp, id)
                    == Some(write_view_value(writes@, comp, id)),
    {
        let ghost ws0 = writes@;
        let mut writes = writes;
        let mut reads = reads;
        while writes.len() > 0
            invariant
                self.wf(),
                views_account(*self, reads@, writes@),
                World::frame_all(*old(self), *self),
                forall|comp: CompID| #[trigger] self.registered(comp)
                    <==> old(self).registered(comp),
                forall|comp: CompID, id: EntityID|
                    #[trigger] write_views_at(writes@, comp, id)
                        <= write_views_at(ws0, comp, id),
                forall|comp: CompID, id: EntityID| write_views_at(writes@, comp, id) == 1
                    ==> #[trigger] write_view_value(ws0, comp, id)
                        == write_view_value(writes@, comp, id),
                forall|comp: CompID, id: EntityID| write_views_at(writes@, comp, id) >= 1
                    ==> #[trigger] self.comp_value(comp, id)
                        == old(self).comp_value(comp, id),
                forall|comp: CompID, id: EntityID| write_views_at(writes@, comp, id) == 0
                    && write_views_at(ws0, comp, id) >= 1
                    ==> #[trigger] self.comp_value(comp, id)
                        == Some(write_view_value(ws0, comp, id)),
                forall|comp: CompID, id: EntityID| write_views_at(ws0, comp, id) == 0
                    ==> #[trigger] self.comp_value(comp, id)
                        == old(self).comp_value(comp, id),
            decreases writes@.len(),
        {
            let ghost ws1 = writes@;
            let ghost mid = *self;
            let g = writes.pop().unwrap();
            proof {
                assert(writes@ == ws1.drop_last());
                assert(g == ws1.last());
                assert(write_views_at(ws1, g.comp_key(), g.entity())
                    == write_views_at(writes@, g.comp_key(), g.entity()) + 1);
                lemma_account_at(mid, reads@, ws1, g.comp_key(), g.entity());
                assert(mid.comp_borrow(g.comp_key(), g.entity()) == BorrowState::Exclusive);
                assert(mid.registered(g.comp_key()));
            }
            let r = self.release_write(g);
            match r {
                Ok(()) => (),
                Err(_) => {
                    proof {
                        assert(false);
                    }
                },
            }
            proof {
                assert forall|c: CompID| #[trigger] self.registered(c)
                    <==> mid.registered(c) by {}
                assert(self.comp_borrow(g.comp_key(), g.entity()) == BorrowState::Free);
                assert(self.comp_value(g.comp_key(), g.entity()) == Some(g.val()));
                assert(borrows_framed(mid, *self, g.comp_key(), g.entity()));
                lemma_account_write_release(mid, *self, reads@, ws1);
                assert(write_views_at(ws1, g.comp_key(), g.entity()) == 1);
                assert(write_view_value(ws1, g.comp_key(), g.entity()) == g.val());
                assert(write_views_at(ws0, g.comp_key(), g.entity()) >= 1);
                assert(write_view_value(ws0, g.comp_key(), g.entity()) == g.val());
                assert forall|comp: CompID, id: EntityID|
                    #[trigger] write_views_at(writes@, comp, id) <= write_views_at(
                        ws0,
                        comp,
                        id,
                    ) by {
                    assert(write_views_at(ws1, comp, id) == write_views_at(writes@, comp, id)
                        + (if g.comp_key() == comp && g.entity() == id {
                        1int
                    } else {
                        0int
                    }));
                    assert(write_views_at(ws1, comp, id) <= write_views_at(ws0, comp, id));
                }
                assert forall|comp: CompID, id: EntityID|
                    write_views_at(writes@, comp, id) >= 1 implies
                    #[trigger] self.comp_value(comp, id)
                        == old(self).comp_value(comp, id) by {
                    assert(write_views_at(ws1, comp, id) == write_views_at(writes@, comp, id)
                        + (if g.comp_key() == comp && g.entity() == id {
                        1int
                    } else {
                        0int
                    }));
                    assert(!(comp == g.comp_key() && id == g.entity()));
                    assert(self.comp_value(comp, id) == mid.comp_value(comp, id));
                    assert(mid.comp_value(comp, id) == old(self).comp_value(comp, id));
                }
                assert forall|comp: CompID, id: EntityID|
                    write_views_at(writes@, comp, id) == 1 implies
                    #[trigger] write_view_value(ws0, comp, id)
                        == write_view_value(writes@, comp, id) by {
                    assert(write_views_at(ws1, comp, id) == write_views_at(writes@, comp, id)
                        + (if g.comp_key() == comp && g.entity() == id {
                        1int
                    } else {
                        0int
                    }));
                    assert(!(comp == g.comp_key() && id == g.entity()));
                    assert(write_views_at(ws1, comp, id) == 1);
                    assert(write_view_value(ws1, comp, id) == write_view_value(
                        writes@,
                        comp,
                        id,
                    ));
                }
                assert forall|comp: CompID, id: EntityID|
                    write_views_at(writes@, comp, id) == 0 && write_views_at(ws0, comp, id)
                        >= 1 implies #[trigger] self.comp_value(comp, id)
                        == Some(write_view_value(ws0, comp, id)) by {
                    assert(write_views_at(ws1, comp, id) == write_views_at(writes@, comp, id)
                        + (if g.comp_key() == comp && g.entity() == id {
                        1int
                    } else {
                        0int
                    }));
                    if comp == g.comp_key() && id == g.entity() {
                        assert(self.comp_value(comp, id) == Some(g.val()));
                    } else {
                        assert(self.comp_value(comp, id) == mid.comp_value(comp, id));
                        assert(write_views_at(ws1, comp, id) == 0);
                    }
                }
                assert forall|comp: CompID, id: EntityID|
                    write_views_at(ws0, comp, id) == 0 implies
                    #[trigger] self.comp_value(comp, id)
                        == old(self).comp_value(comp, id) by {
                    assert(write_views_at(ws1, comp, id) <= write_views_at(ws0, comp, id));
                    assert(write_views_at(ws1, comp, id) == write_views_at(writes@, comp, id)
                        + (if g.comp_key() == comp && g.entity() == id {
                        1int
                    } else {
                        0int
                    }));
                    assert(!(comp == g.comp_key() && id == g.entity()));
                    assert(self.comp_value(comp, id) == mid.comp_value(comp, id));
                }
            }
        }
        while reads.len() > 0
            invariant
                self.wf(),
                views_account(*self, reads@, writes@),
                writes@.len() == 0,
                World::frame_all(*old(self), *self),
                forall|comp: CompID| #[trigger] self.registered(comp)
                    <==> old(self).registered(comp),
                forall|comp: CompID, id: EntityID| write_views_at(ws0, comp, id) >= 1
                    ==> #[trigger] self.comp_value(comp, id)
                        == Some(write_view_value(ws0, comp, id)),
                forall|comp: CompID, id: EntityID| write_views_at(ws0, comp, id) == 0
                    ==> #[trigger] self.comp_value(comp, id)
                        == old(self).comp_value(comp, id),
            decreases reads@.len(),
        {
            let ghost rs1 = reads@;
            let ghost mid = *self;
            let g = reads.pop().unwrap();
            proof {
                assert(reads@ == rs1.drop_last());
                assert(g == rs1.last());
                assert(read_views_at(rs1, g.comp_key(), g.entity())
                    == read_views_at(reads@, g.comp_key(), g.entity()) + 1);
                lemma_account_at(mid, rs1, writes@, g.comp_key(), g.entity());
                assert(write_views_at(writes@, g.comp_key(), g.entity()) == 0);
                assert(mid.comp_borrow(g.comp_key(), g.entity()) == BorrowState::Shared(
                    read_views_at(rs1, g.comp_key(), g.entity()) as u32,
                ));
                assert(mid.registered(g.comp_key()));
            }
            let r = self.release_read(g);
            match r {
                Ok(()) => (),
                Err(_) => {
                    proof {
                        assert(false);
                    }
                },
            }
            proof {
                assert forall|c: CompID| #[trigger] self.registered(c)
                    <==> mid.registered(c) by {}
                assert(read_views_at(rs1, g.comp_key(), g.entity()) <= u32::MAX);
                assert(self.comp_borrow(g.comp_key(), g.entity()) == (if read_views_at(
                    reads@,
                    g.comp_key(),
                    g.entity(),
                ) > 0 {
                    BorrowState::Shared(read_views_at(reads@, g.comp_key(), g.entity()) as u32)
                } else {
                    BorrowState::Free
                }));
                assert(self.comp_value(g.comp_key(), g.entity())
                    == mid.comp_value(g.comp_key(), g.entity()));
                assert(borrows_framed(mid, *self, g.comp_key(), g.entity()));
                lemma_account_read_release(mid, *self, rs1, writes@);
                assert forall|comp: CompID, id: EntityID|
                    #[trigger] self.comp_value(comp, id)
                        == mid.comp_value(comp, id) by {
                    if !(comp == g.comp_key() && id == g.entity()) {
                        assert(self.comp_borrow(comp, id) == mid.comp_borrow(comp, id));
                    }
                }
            }
        }
        proof {
            assert forall|comp: CompID, id: EntityID|
                #[trigger] self.comp_borrow(comp, id) == BorrowState::Free by {
                assert(read_views_at(reads@, comp, id) == 0);
                assert(write_views_at(writes@, comp, id) == 0);
            }
        }
    }


    /// The fetch phase: acquires, for each declaration in order, a view
    /// per member of the declared tag's current snapshot — shared for a
    /// read declaration, exclusive for a write declaration. Succeeds with
    /// exactly the views [`fetch_sim`] says, leaving their slots'
    /// borrow states raised; otherwise every view taken so far is given
    /// back, the world is left as it was, and the first error is
    /// returned. Values are never changed either way.
    pub fn fetch_views(&mut self, decls: &Vec<AccessDecl>) -> (r: Result<
        (Vec<ReadAccess<C>>, Vec<WriteAccess<C>>),
        EcsError,
    >)
        requires
            old(self).wf(),
            old(self).quiescent(),
        ensures
            final(self).wf(),
            World::frame_all(*old(self), *final(self)),
            forall|comp: CompID| #[trigger] final(self).registered(comp)
                <==> old(self).registered(comp),
            forall|comp: CompID, id: EntityID| #[trigger] final(self).comp_value(comp, id)
                == old(self).comp_value(comp, id),
            (match fetch_sim(*old(self), decls@) {
                Err(e) => r == Err::<(Vec<ReadAccess<C>>, Vec<WriteAccess<C>>), EcsError>(e)
                    && final(self).quiescent(),
                Ok(p) => (r matches Ok(q) && q.0@ == p.0 && q.1@ == p.1
                    && views_account(*final(self), p.0, p.1)
                    && write_views_fresh(*final(self), p.1)),
            }),
    {
        let mut reads: Vec<ReadAccess<C>> = Vec::new();
        let mut writes: Vec<WriteAccess<C>> = Vec::new();
        let mut failed: Option<EcsError> = None;
        let mut di: usize = 0;
        proof {
            assert forall|comp: CompID, id: EntityID|
                {
                    &&& write_views_at(writes@, comp, id) <= 1
                    &&& (write_views_at(writes@, comp, id) == 1 ==> read_views_at(
                        reads@,
                        comp,
                        id,
                    ) == 0)
                    &&& read_views_at(reads@, comp, id) <= u32::MAX
                    &&& #[trigger] self.comp_borrow(comp, id) == account_borrow(
                        reads@,
                        writes@,
                        comp,
                        id,
                    )
                } by {
                assert(self.comp_borrow(comp, id) == BorrowState::Free);
            }
            assert(views_account(*self, reads@, writes@));
            assert(decls@.take(0) =~= Seq::<AccessDecl>::empty());
        }
        while di < decls.len() && failed.is_none()
            invariant
                self.wf(),
                di <= decls@.len(),
                views_account(*self, reads@, writes@),
                write_views_fresh(*self, writes@),
                World::frame_all(*old(self), *self),
                forall|comp: CompID| #[trigger] self.registered(comp)
                    <==> old(self).registered(comp),
                forall|comp: CompID, id: EntityID| #[trigger] self.comp_value(comp, id)
                    == old(self).comp_value(comp, id),
                failed is None ==> fetch_sim(*old(self), decls@.take(di as int))
                    == Ok::<(Seq<ReadAccess<C>>, Seq<WriteAccess<C>>), EcsError>((
                    reads@,
                    writes@,
                )),
                failed matches Some(e) ==> fetch_sim(*old(self), decls@)
                    == Err::<(Seq<ReadAccess<C>>, Seq<WriteAccess<C>>), EcsError>(e),
            decreases decls@.len() - di,
        {
            let dtag = decls[di].tag;
            let dcomp = decls[di].comp;
            let dwrite = decls[di].write;
            let ents = self.entities_with_tag(dtag);
            proof {
                assert(ents@ == old(self).tag_members(dtag));
            }
            let mut ei: usize = 0;
            while ei < ents.len() && failed.is_none()
                invariant
                    self.wf(),
                    di < decls@.len(),
                    ei <= ents@.len(),
                    dtag == decls@[di as int].tag,
                    dcomp == decls@[di as int].comp,
                    dwrite == decls@[di as int].write,
                    ents@ == old(self).tag_members(dtag),
                    views_account(*self, reads@, writes@),
                    write_views_fresh(*self, writes@),
                    World::frame_all(*old(self), *self),
                    forall|comp: CompID| #[trigger] self.registered(comp)
                        <==> old(self).registered(comp),
                    forall|comp: CompID, id: EntityID| #[trigger] self.comp_value(comp, id)
                        == old(self).comp_value(comp, id),
                    failed is None ==> fetch_decl_sim(
                        *old(self),
                        fetch_sim(*old(self), decls@.take(di as int)),
                        decls@[di as int],
                        ei as int,
                    ) == Ok::<(Seq<ReadAccess<C>>, Seq<WriteAccess<C>>), EcsError>((
                        reads@,
                        writes@,
                    )),
                    failed matches Some(e) ==> fetch_sim(*old(self), decls@)
                        == Err::<(Seq<ReadAccess<C>>, Seq<WriteAccess<C>>), EcsError>(e),
                decreases ents@.len() - ei,
            {
                let e = ents[ei];
                let ghost w0 = *old(self);
                let ghost mid = *self;
                let ghost acc0 = fetch_decl_sim(
                    w0,
                    fetch_sim(w0, decls@.take(di as int)),
                    decls@[di as int],
                    ei as int,
                );
                proof {
                    assert(w0.tag_members(dtag)[ei as int] == e);
                    assert(fetch_decl_sim(
                        w0,
                        fetch_sim(w0, decls@.take(di as int)),
                        decls@[di as int],
                        ei as int + 1,
                    ) == fetch_step(w0, acc0, dcomp, e, dwrite));
                    lemma_account_at(mid, reads@, writes@, dcomp, e);
                    assert(mid.comp_value(dcomp, e) == w0.comp_value(dcomp, e));
                }
                if dwrite {
                    let got = self.get_comp_mut(dcomp, e);
                    match got {
                        Ok(g) => {
                            proof {
                                assert(mid.registered(dcomp));
                                assert(mid.comp_borrow(dcomp, e) == BorrowState::Free);
                                assert(self.comp_borrow(dcomp, e) == BorrowState::Exclusive);
                                assert(self.comp_value(dcomp, e) == mid.comp_value(dcomp, e));
                                assert(mid.comp_value(dcomp, e) == Some(g.val()));
                                assert forall|c: CompID| #[trigger] self.registered(c)
                                    <==> mid.registered(c) by {}
                                assert(borrows_framed(mid, *self, dcomp, e));
                                lemma_account_write_acquire(mid, *self, reads@, writes@, g);
                                lemma_write_views_push(writes@, g);
                                assert forall|comp: CompID, id: EntityID|
                                    #[trigger] self.comp_value(comp, id)
                                        == mid.comp_value(comp, id) by {
                                    if !(comp == dcomp && id == e) {
                                        assert(self.comp_borrow(comp, id)
                                            == mid.comp_borrow(comp, id));
                                    }
                                }
                                assert forall|k: int| 0 <= k < writes@.push(g).len()
                                    implies self.comp_value(
                                    (#[trigger] writes@.push(g)[k]).comp_key(),
                                    writes@.push(g)[k].entity(),
                                ) == Some(writes@.push(g)[k].val()) by {
                                    if k < writes@.len() {
                                        assert(writes@.push(g)[k] == writes@[k]);
                                        assert(mid.comp_value(writes@[k].comp_key(),
                                            writes@[k].entity()) == Some(writes@[k].val()));
                                    } else {
                                        assert(writes@.push(g)[k] == g);
                                    }
                                }
                                assert(write_views_at(writes@, dcomp, e) == 0);
                                assert(read_views_at(reads@, dcomp, e) == 0);
                                lemma_write_view_determined(g);
                                assert(w0.comp_value(dcomp, e) == Some(g.val()));
                                assert(WriteAccess::of(dcomp, e, w0.comp_value(dcomp, e)->0)
                                    == g);
                                assert(fetch_step(w0, acc0, dcomp, e, true)
                                    == Ok::<(Seq<ReadAccess<C>>, Seq<WriteAccess<C>>), EcsError>((
                                    reads@,
                                    writes@.push(g),
                                )));
                            }
                            writes.push(g);
                        },
                        Err(err) => {
                            failed = Some(err);
                            proof {
                                assert forall|c: CompID| #[trigger] self.registered(c)
                                    <==> mid.registered(c) by {}
                                assert(borrows_framed(mid, *self, dcomp, e));
                                assert(self.comp_borrow(dcomp, e) == mid.comp_borrow(dcomp, e));
                                assert forall|comp: CompID, id: EntityID|
                                    #[trigger] self.comp_value(comp, id)
                                        == mid.comp_value(comp, id)
                                        && self.comp_borrow(comp, id)
                                        == mid.comp_borrow(comp, id) by {
                                    if !(comp == dcomp && id == e) {
                                        assert(self.comp_borrow(comp, id)
                                            == mid.comp_borrow(comp, id));
                                    }
                                }
                                assert(fetch_step(w0, acc0, dcomp, e, true)
                                    == Err::<(Seq<ReadAccess<C>>, Seq<WriteAccess<C>>), EcsError>(
                                    err,
                                ));
                                lemma_decl_sim_absorbs_err(
                                    w0,
                                    fetch_sim(w0, decls@.take(di as int)),
                                    decls@[di as int],
                                    ei as int + 1,
                                    w0.tag_members(dtag).len() as int,
                                );
                                assert(decls@.take(di as int + 1).drop_last()
                                    =~= decls@.take(di as int));
                                assert(decls@.take(di as int + 1).last()
                                    == decls@[di as int]);
                                assert(fetch_sim(w0, decls@.take(di as int + 1))
                                    == Err::<(Seq<ReadAccess<C>>, Seq<WriteAccess<C>>), EcsError>(
                                    err,
                                ));
                                lemma_sim_absorbs_err(w0, decls@, di as int + 1);
                            }
                        },
                    }
                } else {
                    let got = self.get_component(dcomp, e);
                    match got {
                        Ok(g) => {
                            proof {
                                assert(mid.registered(dcomp));
                                assert(self.comp_value(dcomp, e) == mid.comp_value(dcomp, e));
                                assert(mid.comp_borrow(dcomp, e) != BorrowState::Exclusive);
                                assert(read_views_at(reads@, dcomp, e) < u32::MAX);
                                assert(self.comp_borrow(dcomp, e) == BorrowState::Shared(
                                    (read_views_at(reads@, dcomp, e) + 1) as u32,
                                ));
                                assert forall|c: CompID| #[trigger] self.registered(c)
                                    <==> mid.registered(c) by {}
                                assert(borrows_framed(mid, *self, dcomp, e));
                                lemma_account_read_acquire(mid, *self, reads@, writes@, g);
                                assert forall|comp: CompID, id: EntityID|
                                    #[trigger] self.comp_value(comp, id)
                                        == mid.comp_value(comp, id) by {
                                    if !(comp == dcomp && id == e) {
                                        assert(self.comp_borrow(comp, id)
                                            == mid.comp_borrow(comp, id));
                                    }
                                }
                                assert forall|k: int| 0 <= k < writes@.len()
                                    implies self.comp_value(
                                    (#[trigger] writes@[k]).comp_key(),
                                    writes@[k].entity(),
                                ) == Some(writes@[k].val()) by {
                                    assert(mid.comp_value(writes@[k].comp_key(),
                                        writes@[k].entity()) == Some(writes@[k].val()));
                                }
                                assert(write_views_at(writes@, dcomp, e) == 0);
                                lemma_read_view_determined(g);
                                assert(mid.comp_value(dcomp, e) == Some(g.val()));
                                assert(w0.comp_value(dcomp, e) == Some(g.val()));
                                assert(ReadAccess::of(dcomp, e, w0.comp_value(dcomp, e)->0)
                                    == g);
                                assert(fetch_step(w0, acc0, dcomp, e, false)
                                    == Ok::<(Seq<ReadAccess<C>>, Seq<WriteAccess<C>>), EcsError>((
                                    reads@.push(g),
                                    writes@,
                                )));
                                lemma_read_views_push(reads@, g);
                            }
                            reads.push(g);
                        },
                        Err(err) => {
                            failed = Some(err);
                            proof {
                                assert forall|c: CompID| #[trigger] self.registered(c)
                                    <==> mid.registered(c) by {}
                                assert(borrows_framed(mid, *self, dcomp, e));
                                assert(self.comp_borrow(dcomp, e) == mid.comp_borrow(dcomp, e));
                                assert forall|comp: CompID, id: EntityID|
                                    #[trigger] self.comp_value(comp, id)
                                        == mid.comp_value(comp, id)
                                        && self.comp_borrow(comp, id)
                                        == mid.comp_borrow(comp, id) by {
                                    if !(comp == dcomp && id == e) {
                                        assert(self.comp_borrow(comp, id)
                                            == mid.comp_borrow(comp, id));
                                    }
                                }
                                assert(fetch_step(w0, acc0, dcomp, e, false)
                                    == Err::<(Seq<ReadAccess<C>>, Seq<WriteAccess<C>>), EcsError>(
                                    err,
                                ));
                                lemma_decl_sim_absorbs_err(
                                    w0,
                                    fetch_sim(w0, decls@.take(di as int)),
                                    decls@[di as int],
                                    ei as int + 1,
                                    w0.tag_members(dtag).len() as int,
                                );
                                assert(decls@.take(di as int + 1).drop_last()
                                    =~= decls@.take(di as int));
                                assert(decls@.take(di as int + 1).last()
                                    == decls@[di as int]);
                                assert(fetch_sim(w0, decls@.take(di as int + 1))
                                    == Err::<(Seq<ReadAccess<C>>, Seq<WriteAccess<C>>), EcsError>(
                                    err,
                                ));
                                lemma_sim_absorbs_err(w0, decls@, di as int + 1);
                            }
                        },
                    }
                }
                ei = ei + 1;
            }
            proof {
                if failed is None {
                    assert(ei == ents@.len());
                    assert(decls@.take(di as int + 1).drop_last() =~= decls@.take(di as int));
                    assert(decls@.take(di as int + 1).last() == decls@[di as int]);
                    assert(fetch_sim(*old(self), decls@.take(di as int + 1))
                        == Ok::<(Seq<ReadAccess<C>>, Seq<WriteAccess<C>>), EcsError>((
                        reads@,
                        writes@,
                    )));
                }
            }
            di = di + 1;
        }
        match failed {
            Some(err) => {
                let ghost ws_final = writes@;
                let ghost rs_final = reads@;
                let ghost pre_settle = *self;
                proof {
                    assert forall|comp: CompID, id: EntityID|
                        write_views_at(ws_final, comp, id) >= 1
                            implies pre_settle.comp_value(comp, id)
                                == Some(#[trigger] write_view_value(ws_final, comp, id)) by {
                        lemma_fresh_view_value(pre_settle, ws_final, comp, id);
                    }
                }
                self.settle_views(reads, writes);
                proof {
                    assert forall|comp: CompID, id: EntityID|
                        #[trigger] self.comp_value(comp, id)
                            == old(self).comp_value(comp, id) by {
                        lemma_account_at(pre_settle, rs_final, ws_final, comp, id);
                        if write_views_at(ws_final, comp, id) == 1 {
                            assert(self.comp_value(comp, id)
                                == Some(write_view_value(ws_final, comp, id)));
                            assert(pre_settle.comp_value(comp, id)
                                == Some(write_view_value(ws_final, comp, id)));
                        } else {
                            assert(write_views_at(ws_final, comp, id) == 0);
                            assert(self.comp_value(comp, id) == pre_settle.comp_value(comp, id));
                        }
                        assert(pre_settle.comp_value(comp, id) == old(self).comp_value(comp, id));
                    }
                }
                Err(err)
            },
            None => {
                proof {
                    assert(decls@.take(di as int) =~= decls@);
                }
                Ok((reads, writes))
            },
        }
    }

    /// Executes a system, in the three phases of the protocol: resolves
    /// each declared tag to its current members, fetches a shared view
    /// per declared read pair and an exclusive view per declared write
    /// pair ([`fetch_sim`] fixes the outcome of these two phases), runs
    /// the system on the fetched views, and writes the exclusive views
    /// back.
    ///
    /// Returns the (component, entity) pairs of the declared write
    /// views, in fetch order; each of those slots afterwards holds
    /// exactly what the system's [`System::run_spec`] computed for it,
    /// and every other slot keeps its value. The execution fails — with
    /// every value left as it was — exactly when the fetch phase fails:
    /// with a lookup miss when a selected entity lacks a declared
    /// component, a configuration error on an unregistered key, and an
    /// access conflict on overlapping acquisitions of one slot.
    pub fn run_system<S: System<C>>(&mut self, sys: &S) -> (r: Result<
        Vec<(CompID, EntityID)>,
        EcsError,
    >)
        requires
            old(self).wf(),
            old(self).quiescent(),
        ensures
            final(self).wf(),
            final(self).quiescent(),
            World::frame_all(*old(self), *final(self)),
            forall|comp: CompID| #[trigger] final(self).registered(comp)
                <==> old(self).registered(comp),
            (match fetch_sim(*old(self), sys.spec_declares()) {
                Err(e) => r == Err::<Vec<(CompID, EntityID)>, EcsError>(e)
                    && forall|comp: CompID, id: EntityID|
                        #[trigger] final(self).comp_value(comp, id)
                            == old(self).comp_value(comp, id),
                Ok(p) => (r matches Ok(written) && written@.len() == p.1.len()
                    && (forall|k: int| 0 <= k < written@.len() ==> #[trigger] written@[k]
                        == ((p.1[k].comp_key(), p.1[k].entity())))
                    && (forall|k: int| 0 <= k < written@.len()
                        ==> #[trigger] final(self).comp_value(written@[k].0, written@[k].1)
                            == Some(sys.run_spec(p.0, p.1, k)))
                    && (forall|comp: CompID, id: EntityID|
                        pair_count(written@, comp, id) == 0
                            ==> #[trigger] final(self).comp_value(comp, id)
                                == old(self).comp_value(comp, id))),
            }),
    {
        let decls = sys.declares();
        let fetched = self.fetch_views(&decls);
        match fetched {
            Err(e) => Err(e),
            Ok(pair) => {
                let (reads, writes) = pair;
                let mut writes = writes;
                let ghost srs = reads@;
                let ghost sws = writes@;
                sys.run(&reads, &mut writes);
                proof {
                    lemma_write_views_congruent(sws, writes@);
                    assert forall|comp: CompID, id: EntityID|
                        {
                            &&& write_views_at(writes@, comp, id) <= 1
                            &&& (write_views_at(writes@, comp, id) == 1 ==> read_views_at(
                                reads@,
                                comp,
                                id,
                            ) == 0)
                            &&& read_views_at(reads@, comp, id) <= u32::MAX
                            &&& #[trigger] self.comp_borrow(comp, id) == account_borrow(
                                reads@,
                                writes@,
                                comp,
                                id,
                            )
                        } by {
                        lemma_account_at(*self, reads@, sws, comp, id);
                        assert(write_views_at(writes@, comp, id) == write_views_at(
                            sws,
                            comp,
                            id,
                        ));
                    }
                    assert(views_account(*self, reads@, writes@));
                }
                let mut written: Vec<(CompID, EntityID)> = Vec::new();
                let mut wi: usize = 0;
                while wi < writes.len()
                    invariant
                        0 <= wi <= writes@.len(),
                        written@.len() == wi,
                        forall|k: int| 0 <= k < wi ==> #[trigger] written@[k]
                            == ((writes@[k].comp_key(), writes@[k].entity())),
                    decreases writes@.len() - wi,
                {
                    let c = writes[wi].component_id();
                    let e = writes[wi].entity_id();
                    written.push((c, e));
                    wi = wi + 1;
                }
                proof {
                    lemma_pair_count_mirrors(written@, writes@);
                }
                let ghost ws_final = writes@;
                let ghost pre_settle = *self;
                self.settle_views(reads, writes);
                proof {
                    assert forall|k: int| 0 <= k < written@.len()
                        implies #[trigger] self.comp_value(written@[k].0, written@[k].1)
                            == Some(sys.run_spec(srs, sws, k)) by {
                        lemma_write_views_at_index(ws_final, k);
                        lemma_account_at(
                            pre_settle,
                            srs,
                            ws_final,
                            written@[k].0,
                            written@[k].1,
                        );
                        assert(write_views_at(ws_final, written@[k].0, written@[k].1) == 1);
                        assert(ws_final[k].comp_key() == written@[k].0
                            && ws_final[k].entity() == written@[k].1);
                        lemma_write_view_value_at(ws_final, k);
                        assert(write_view_value(ws_final, written@[k].0, written@[k].1)
                            == ws_final[k].val());
                        assert(ws_final[k].val() == sys.run_spec(srs, sws, k));
                    }
                    assert forall|comp: CompID, id: EntityID|
                        pair_count(written@, comp, id) == 0
                            implies #[trigger] self.comp_value(comp, id)
                                == old(self).comp_value(comp, id) by {
                        assert(write_views_at(ws_final, comp, id) == 0);
                        assert(self.comp_value(comp, id) == pre_settle.comp_value(comp, id));
                        assert(pre_settle.comp_value(comp, id)
                            == old(self).comp_value(comp, id));
                    }
                }
                Ok(written)
            },
        }
    }
}

/// The tags this crate's bundled demo system works with.
#[derive(Clone, Copy, Debug, Hash, PartialEq, Eq, Structural)]
pub enum Tag {
    /// Entities that gravity moves.
    HasGravity,
}

impl Tag {
    /// The integer tag identifier this variant stands for.
    pub fn id(self) -> (t: TagID)
        ensures
            t == 0,
    {
        match self {
            Tag::HasGravity => 0,
        }
    }
}

/// A two-dimensional integer point or displacement: the component payload
/// of the bundled movement system.
#[derive(Clone, Copy, Debug, PartialEq, Eq, Structural)]
pub struct Coords {
    /// Horizontal part.
    pub x: i64,
    /// Vertical part.
    pub y: i64,
}

impl Component for Coords {
}

/// `a + b` clamped into the 64-bit signed range.
pub open spec fn sat_add(a: int, b: int) -> int {
    if a + b > i64::MAX {
        i64::MAX as int
    } else if a + b < i64::MIN {
        i64::MIN as int
    } else {
        a + b
    }
}

/// Two coordinates added, each part clamped into the 64-bit signed range.
pub open spec fn coords_sum(a: Coords, b: Coords) -> Coords {
    Coords {
        x: sat_add(a.x as int, b.x as int) as i64,
        y: sat_add(a.y as int, b.y as int) as i64,
    }
}

/// Adds two coordinates, clamping each part into the 64-bit signed range.
pub fn coords_add(a: Coords, b: Coords) -> (r: Coords)
    ensures
        r == coords_sum(a, b),
        r.x == sat_add(a.x as int, b.x as int),
        r.y == sat_add(a.y as int, b.y as int),
{
    Coords { x: sat_add_i64(a.x, b.x), y: sat_add_i64(a.y, b.y) }
}

/// Saturating 64-bit signed addition.
fn sat_add_i64(a: i64, b: i64) -> (r: i64)
    ensures
        r == sat_add(a as int, b as int),
{
    if b >= 0 {
        if a > i64::MAX - b {
            i64::MAX
        } else {
            a + b
        }
    } else {
        if a < i64::MIN - b {
            i64::MIN
        } else {
            a + b
        }
    }
}

/// The value of the first shared view of component `comp` for entity `e`
/// in `reads`, if any.
pub open spec fn first_view<C: Component>(
    reads: Seq<ReadAccess<C>>,
    comp: CompID,
    e: EntityID,
) -> Option<C>
    decreases reads.len(),
{
    if reads.len() == 0 {
        None
    } else if reads[0].comp_key() == comp && reads[0].entity() == e {
        Some(reads[0].val())
    } else {
        first_view(reads.drop_first(), comp, e)
    }
}

/// The first shared view of the given component for entity `e`, if one
/// was fetched.
fn find_view<C: Component>(reads: &Vec<ReadAccess<C>>, comp: CompID, e: EntityID) -> (r:
    Option<C>)
    ensures
        r == first_view(reads@, comp, e),
{
    let mut j: usize = 0;
    proof {
        assert(reads@.skip(0) =~= reads@);
    }
    while j < reads.len()
        invariant
            0 <= j <= reads@.len(),
            first_view(reads@, comp, e) == first_view(reads@.skip(j as int), comp, e),
        decreases reads@.len() - j,
    {
        proof {
            assert(reads@.skip(j as int).len() > 0);
            assert(reads@.skip(j as int)[0] == reads@[j as int]);
            assert(reads@.skip(j as int).drop_first() =~= reads@.skip(j as int + 1));
        }
        if reads[j].component_id() == comp && reads[j].entity_id() == e {
            let v = reads[j].value();
            return Some(v);
        }
        j = j + 1;
    }
    proof {
        assert(reads@.skip(reads@.len() as int).len() == 0);
    }
    None
}

/// The bundled demo system: under its gravity tag it reads each entity's
/// velocity and writes the entity's position shifted by it, parts clamped
/// into the 64-bit signed range.
pub struct MoveSystem {
    /// The tag selecting the moved entities.
    pub gravity_tag: TagID,
    /// The component key of the read velocity.
    pub velocity: CompID,
    /// The component key of the written position.
    pub position: CompID,
}

impl System<Coords> for MoveSystem {
    open spec fn spec_declares(&self) -> Seq<AccessDecl> {
        seq![
            AccessDecl { tag: self.gravity_tag, comp: self.velocity, write: false },
            AccessDecl { tag: self.gravity_tag, comp: self.position, write: true },
        ]
    }

    /// A position view whose entity has a fetched velocity view becomes
    /// their clamped sum; every other view keeps its value.
    open spec fn run_spec(
        &self,
        reads: Seq<ReadAccess<Coords>>,
        writes: Seq<WriteAccess<Coords>>,
        k: int,
    ) -> Coords {
        if 0 <= k < writes.len() {
            if writes[k].comp_key() == self.position && first_view(
                reads,
                self.velocity,
                writes[k].entity(),
            ) is Some {
                coords_sum(
                    writes[k].val(),
                    first_view(reads, self.velocity, writes[k].entity())->0,
                )
            } else {
                writes[k].val()
            }
        } else {
            arbitrary()
        }
    }

    fn declares(&self) -> (r: Vec<AccessDecl>) {
        let mut v: Vec<AccessDecl> = Vec::new();
        v.push(AccessDecl { tag: self.gravity_tag, comp: self.velocity, write: false });
        v.push(AccessDecl { tag: self.gravity_tag, comp: self.position, write: true });
        proof {
            assert(v@ =~= self.spec_declares());
        }
        v
    }

    fn run(&self, reads: &Vec<ReadAccess<Coords>>, writes: &mut Vec<WriteAccess<Coords>>) {
        let mut i: usize = 0;
        while i < writes.len()
            invariant
                0 <= i <= writes@.len(),
                writes@.len() == old(writes)@.len(),
                forall|k: int| i <= k < writes@.len()
                    ==> #[trigger] writes@[k] == old(writes)@[k],
                forall|k: int| 0 <= k < i
                    ==> (#[trigger] writes@[k]).comp_key() == old(writes)@[k].comp_key()
                        && writes@[k].entity() == old(writes)@[k].entity()
                        && writes@[k].val() == self.run_spec(reads@, old(writes)@, k),
            decreases writes@.len() - i,
        {
            let cid = writes[i].component_id();
            let e = writes[i].entity_id();
            let pos = writes[i].value();
            let ghost pre = writes@;
            if cid == self.position {
                let found = find_view(reads, self.velocity, e);
                match found {
                    Some(vel) => {
                        let moved = coords_add(pos, vel);
                        let w = &mut writes[i];
                        w.set_value(moved);
                        proof {
                            assert forall|k: int| i < k < writes@.len()
                                implies #[trigger] writes@[k] == old(writes)@[k] by {
                                assert(writes@[k] == pre[k]);
                            }
                            assert forall|k: int| 0 <= k < i
                                implies (#[trigger] writes@[k]).comp_key()
                                    == old(writes)@[k].comp_key() && writes@[k].entity()
                                    == old(writes)@[k].entity() && writes@[k].val()
                                    == self.run_spec(reads@, old(writes)@, k) by {
                                assert(writes@[k] == pre[k]);
                            }
                            assert(writes@[i as int].val() == self.run_spec(
                                reads@,
                                old(writes)@,
                                i as int,
                            ));
                        }
                    },
                    None => {
                        proof {
                            assert(writes@[i as int].val() == self.run_spec(
                                reads@,
                                old(writes)@,
                                i as int,
                            ));
                        }
                    },
                }
            } else {
                proof {
                    assert(writes@[i as int].val() == self.run_spec(
                        reads@,
                        old(writes)@,
                        i as int,
                    ));
                }
            }
            i = i + 1;
        }
    }
}

} // verus!
