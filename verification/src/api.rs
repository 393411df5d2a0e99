//! The operation entry points as they face the transport layer: plain
//! request and response records, the caller identity, and the error kinds
//! the layer above maps to status codes.

use vstd::prelude::*;

use crate::graph::Engine;
use crate::ops::NodeOperationError;

verus! {

/// Errors of the surrounding service layer.
#[derive(Debug, Clone, Copy, PartialEq, Eq, Structural)]
pub enum ApiError {
    DatabaseOperationFailed,
    InvalidToken,
    TokenExpired,
    UnauthorizedAccess,
    ItemNotFound,
}

/// The already-authenticated caller identity handed in by the transport
/// layer.
#[derive(Debug, Clone, Copy, PartialEq, Eq, Structural)]
pub struct TokenData {
    pub user_id: u64,
    pub exp: u64,
}

#[derive(Debug, Clone, PartialEq, Eq)]
pub struct CreateRequest {
    pub workspace_id: u64,
    pub name: String,
    pub summary: String,
}

#[derive(Debug, Clone, Copy, PartialEq, Eq, Structural)]
pub struct CreateResponse {
    pub node_id: u64,
}

#[derive(Debug, Clone, PartialEq, Eq)]
pub struct AddRequest {
    pub workspace_id: u64,
    pub node_id: u64,
    pub name: String,
    pub summary: String,
}

#[derive(Debug, Clone, Copy, PartialEq, Eq, Structural)]
pub struct AddResponse {
    pub node_id: u64,
}

#[derive(Debug, Clone, Copy, PartialEq, Eq, Structural)]
pub struct BorrowRequest {
    pub node_id: u64,
    pub branch_id: u64,
}

#[derive(Debug, Clone, Copy, PartialEq, Eq, Structural)]
pub struct BorrowResponse;

#[derive(Debug, Clone, Copy, PartialEq, Eq, Structural)]
pub struct DropRequest {
    pub node_id: u64,
    pub branch_id: u64,
}

#[derive(Debug, Clone, Copy, PartialEq, Eq, Structural)]
pub struct DropResponse;

#[derive(Debug, Clone, Copy, PartialEq, Eq, Structural)]
pub struct TakeRequest {
    pub node_id: u64,
    pub branch_id: u64,
}

#[derive(Debug, Clone, Copy, PartialEq, Eq, Structural)]
pub struct TakeResponse;

#[derive(Debug, Clone, Copy, PartialEq, Eq, Structural)]
pub struct DeleteRequest {
    pub node_id: u64,
}

#[derive(Debug, Clone, Copy, PartialEq, Eq, Structural)]
pub struct DeleteResponse;

impl Engine {
    /// CREATE, from a request record.
    pub fn create(&mut self, req: CreateRequest) -> (r: Result<
        CreateResponse,
        NodeOperationError,
    >)
        requires
            old(self).wf(),
            old(self).next_id < u64::MAX,
        ensures
            final(self).wf(),
            old(self).has_root(req.workspace_id) ==> r == Err::<CreateResponse,
                NodeOperationError,
            >(NodeOperationError::RootAlreadyExists) && *final(self) == *old(self),
            !old(self).has_root(req.workspace_id) ==> {
                &&& r == Ok::<CreateResponse, NodeOperationError>(
                    (CreateResponse { node_id: old(self).next_id }),
                )
                &&& final(self).nodes@ == old(self).nodes@.push(
                    Engine::fresh_node(
                        old(self).next_id,
                        req.workspace_id,
                        req.name,
                        req.summary,
                    ),
                )
                &&& final(self).edges@ == old(self).edges@
                &&& final(self).next_id == old(self).next_id + 1
            },
    {
        match self.create_node(req.workspace_id, req.name, req.summary) {
            Ok(id) => Ok(CreateResponse { node_id: id }),
            Err(refusal) => Err(refusal),
        }
    }

    /// ADD, from a request record.
    pub fn add(&mut self, req: AddRequest) -> (r: Result<AddResponse, NodeOperationError>)
        requires
            old(self).wf(),
            old(self).next_id < u64::MAX,
        ensures
            final(self).wf(),
            !(old(self).has_node(req.node_id) && old(self).workspace_of(req.node_id)
                == req.workspace_id) ==> (r == Err::<AddResponse, NodeOperationError>(
                NodeOperationError::NonexistentNode,
            ) && *final(self) == *old(self)),
            old(self).has_node(req.node_id) && old(self).workspace_of(req.node_id)
                == req.workspace_id ==> {
                &&& r == Ok::<AddResponse, NodeOperationError>(
                    (AddResponse { node_id: old(self).next_id }),
                )
                &&& final(self).nodes@ == old(self).nodes@.push(
                    Engine::fresh_node(
                        old(self).next_id,
                        req.workspace_id,
                        req.name,
                        req.summary,
                    ),
                )
                &&& final(self).edges@ == old(self).edges@.push(
                    (old(self).next_id, req.node_id),
                )
                &&& final(self).next_id == old(self).next_id + 1
            },
    {
        match self.add_node(req.workspace_id, req.node_id, req.name, req.summary) {
            Ok(id) => Ok(AddResponse { node_id: id }),
            Err(refusal) => Err(refusal),
        }
    }

    /// BORROW, from a request record.
    pub fn borrow(&mut self, req: BorrowRequest) -> (r: Result<BorrowResponse, NodeOperationError>)
        requires
            old(self).wf(),
        ensures
            final(self).wf(),
            match old(self).link_refusal(req.node_id, req.branch_id) {
                Some(refusal) => r == Err::<BorrowResponse, NodeOperationError>(refusal)
                    && *final(self) == *old(self),
                None => {
                    &&& r == Ok::<BorrowResponse, NodeOperationError>(BorrowResponse)
                    &&& final(self).nodes@ == old(self).nodes@
                    &&& final(self).next_id == old(self).next_id
                    &&& final(self).edges@ == {
                        let detached = old(self).edges@.filter(
                            |e: (u64, u64)|
                                !(e.0 == req.branch_id && old(self).ancestor_chain(
                                    req.node_id,
                                ).contains(e.1)),
                        );
                        if old(self).edge_set().contains((req.branch_id, req.node_id)) {
                            detached
                        } else {
                            detached.push((req.branch_id, req.node_id))
                        }
                    }
                },
            },
    {
        match self.borrow_node(req.node_id, req.branch_id) {
            Ok(_) => Ok(BorrowResponse),
            Err(refusal) => Err(refusal),
        }
    }

    /// DROP, from a request record.
    pub fn drop(&mut self, req: DropRequest) -> (r: Result<DropResponse, NodeOperationError>)
        requires
            old(self).wf(),
        ensures
            final(self).wf(),
            r == Ok::<DropResponse, NodeOperationError>(DropResponse),
            !old(self).edge_set().contains((req.branch_id, req.node_id)) ==> *final(self)
                == *old(self),
            old(self).edge_set().contains((req.branch_id, req.node_id)) && old(
                self,
            ).other_parent_exists(req.branch_id, req.node_id) ==> {
                &&& final(self).nodes@ == old(self).nodes@
                &&& final(self).next_id == old(self).next_id
                &&& final(self).edges@ == old(self).edges@.filter(
                    |e: (u64, u64)| e != (req.branch_id, req.node_id),
                )
            },
            old(self).edge_set().contains((req.branch_id, req.node_id)) && !old(
                self,
            ).other_parent_exists(req.branch_id, req.node_id) ==> Engine::cascade_result(
                *old(self),
                *final(self),
                req.branch_id,
            ),
    {
        match self.drop_node(req.node_id, req.branch_id) {
            Ok(_) => Ok(DropResponse),
            Err(refusal) => Err(refusal),
        }
    }

    /// TAKE, from a request record.
    pub fn take(&mut self, req: TakeRequest) -> (r: Result<TakeResponse, NodeOperationError>)
        requires
            old(self).wf(),
        ensures
            final(self).wf(),
            match old(self).link_refusal(req.node_id, req.branch_id) {
                Some(refusal) => r == Err::<TakeResponse, NodeOperationError>(refusal)
                    && *final(self) == *old(self),
                None => {
                    &&& r == Ok::<TakeResponse, NodeOperationError>(TakeResponse)
                    &&& final(self).nodes@ == old(self).nodes@
                    &&& final(self).next_id == old(self).next_id
                    &&& final(self).edges@ == old(self).edges@.filter(
                        |e: (u64, u64)| e.0 != req.branch_id,
                    ).push((req.branch_id, req.node_id))
                },
            },
    {
        match self.take_node(req.node_id, req.branch_id) {
            Ok(_) => Ok(TakeResponse),
            Err(refusal) => Err(refusal),
        }
    }

    /// DELETE, from a request record.
    pub fn delete(&mut self, req: DeleteRequest) -> (r: Result<DeleteResponse, NodeOperationError>)
        requires
            old(self).wf(),
        ensures
            final(self).wf(),
            !old(self).has_node(req.node_id) ==> r == Err::<DeleteResponse, NodeOperationError>(
                NodeOperationError::NonexistentNode,
            ) && *final(self) == *old(self),
            old(self).has_node(req.node_id) ==> r == Ok::<DeleteResponse, NodeOperationError>(
                DeleteResponse,
            ) && Engine::cascade_result(*old(self), *final(self), req.node_id),
    {
        match self.delete_node(req.node_id) {
            Ok(_) => Ok(DeleteResponse),
            Err(refusal) => Err(refusal),
        }
    }
}

} // verus!
