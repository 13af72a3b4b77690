//! The command handler: one inbound `/claim` event in, at most one
//! acknowledgement line out.
//!
//! Each invocation reconciles the author's user record (find-or-create, then
//! a display-name refresh), parses the claimed coordinates out of the
//! message text, and formats the acknowledgement.  The record is reconciled
//! whether or not the arguments parse; a malformed argument list yields
//! `InvalidArguments` and no response text.

use vstd::prelude::*;

use crate::args::{cmd_len, parse_claim_args, spec_claim_args, ClaimError};
use crate::respond::{format_response, spec_response};
use crate::store::{
    has_pid, idx_of, max_rows, update_model, upsert_model, upsert_result, User, UserStore,
    UserView,
};

verus! {

/// The store rows after one handled claim: the author's record is found or
/// created, and its display name is refreshed to the author's current one.
pub open spec fn claim_model(rows: Seq<UserView>, pid: Seq<char>, name: Seq<char>) -> Seq<
    UserView,
> {
    update_model(
        upsert_model(rows, pid, name),
        upsert_result(rows, pid, name).id,
        pid,
        name,
    )
}

/// Handle one `/claim` invocation: reconcile the author's record, parse the
/// coordinates, and hand back the acknowledgement line.
pub fn handle_claim(
    store: &mut UserStore,
    author_id: &str,
    author_name: &str,
    content: &str,
) -> (r: Result<String, ClaimError>)
    requires
        old(store).wf(),
        old(store)@.len() < max_rows(),
        content@.len() >= cmd_len(),
    ensures
        final(store).wf(),
        final(store)@ == claim_model(old(store)@, author_id@, author_name@),
        match r {
            Ok(msg) => {
                &&& spec_claim_args(content@) is Some
                &&& msg@ == spec_response(
                    author_name@,
                    author_id@,
                    spec_claim_args(content@).unwrap().0,
                    spec_claim_args(content@).unwrap().1,
                )
            },
            Err(e) => e == ClaimError::InvalidArguments && spec_claim_args(content@) is None,
        },
{
    let u = store.find_or_create_user(author_id, author_name);
    proof {
        let rows = old(store)@;
        let pid = author_id@;
        let rows2 = upsert_model(rows, pid, author_name@);
        let uid = upsert_result(rows, pid, author_name@).id;
        if has_pid(rows, pid) {
            let idx = idx_of(rows, pid);
            assert(0 <= idx < rows.len() && rows[idx].discord_id == pid);
            assert(rows[idx].id == idx + 1);
            assert(uid == idx + 1);
            assert forall|j: int|
                0 <= j < rows2.len() && j != uid - 1 implies (#[trigger] rows2[j]).discord_id
                != pid by {
                if rows2[j].discord_id == pid {
                    assert(rows[j].discord_id == rows[idx].discord_id);
                }
            }
        } else {
            assert(rows2[rows.len() as int].discord_id == pid);
            assert(uid == rows.len() + 1);
            assert forall|j: int|
                0 <= j < rows2.len() && j != uid - 1 implies (#[trigger] rows2[j]).discord_id
                != pid by {
                if rows2[j].discord_id == pid {
                    assert(rows[j] == rows2[j]);
                    assert(has_pid(rows, pid));
                }
            }
        }
        assert(u.id as int == uid);
        assert(1 <= uid <= rows2.len());
    }
    let upd = store.update_user(u.id, author_id, author_name);
    let user: User = match upd {
        Ok(x) => x,
        Err(_) => vstd::pervasive::unreached(),
    };
    match parse_claim_args(content) {
        Ok(xy) => {
            let msg = format_response(user.username.as_str(), user.discord_id.as_str(), xy.0, xy.1);
            Ok(msg)
        },
        Err(e) => Err(e),
    }
}

} // verus!
