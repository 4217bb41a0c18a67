//! The workspace adapter: turns the declared dependencies of the workspace
//! members into diagram edges, keeping only path-local dependencies whose
//! effective name is itself a member. The surrounding program reads the
//! member manifests from disk and hands them over as plain values.

use vstd::prelude::*;

use crate::diagram::{Diagram, Element, ElementKind, ElementV, Relationship, RelationshipKind,
    RelationshipV, has_elem, has_id};
use crate::errors::Error;
use crate::strutil::{contains_name, names_contain, seg_views};

verus! {

/// One declared dependency of a member manifest: its declared name, the
/// package it renames if any, and whether it is registry-hosted.
pub struct DependencyData {
    pub name: String,
    pub rename: Option<String>,
    pub registry_hosted: bool,
}

/// The mathematical value of a [`DependencyData`].
pub ghost struct DependencyV {
    pub name: Seq<char>,
    pub rename: Option<Seq<char>>,
    pub registry_hosted: bool,
}

impl View for DependencyData {
    type V = DependencyV;

    open spec fn view(&self) -> DependencyV {
        DependencyV {
            name: self.name@,
            rename: match self.rename {
                Option::Some(ref r) => Option::Some(r@),
                Option::None => Option::None,
            },
            registry_hosted: self.registry_hosted,
        }
    }
}

/// One member's manifest: whether it declares a package at all, and its
/// dependency list.
pub struct ManifestData {
    pub has_package: bool,
    pub dependencies: Vec<DependencyData>,
}

/// The mathematical value of a [`ManifestData`].
pub ghost struct ManifestV {
    pub has_package: bool,
    pub dependencies: Seq<DependencyV>,
}

impl View for ManifestData {
    type V = ManifestV;

    open spec fn view(&self) -> ManifestV {
        ManifestV {
            has_package: self.has_package,
            dependencies: self.dependencies@.map_values(|d: DependencyData| d@),
        }
    }
}

/// A workspace: its member names and, aligned with them, each member's
/// manifest.
pub struct WorkspaceData {
    pub members: Vec<String>,
    pub manifests: Vec<ManifestData>,
}

/// The mathematical value of a [`WorkspaceData`].
pub ghost struct WorkspaceV {
    pub members: Seq<Seq<char>>,
    pub manifests: Seq<ManifestV>,
}

impl View for WorkspaceData {
    type V = WorkspaceV;

    open spec fn view(&self) -> WorkspaceV {
        WorkspaceV {
            members: seg_views(self.members@),
            manifests: self.manifests@.map_values(|m: ManifestData| m@),
        }
    }
}

impl WorkspaceData {
    /// Each member has its manifest.
    pub open spec fn wf(&self) -> bool {
        self@.members.len() == self@.manifests.len()
    }
}

/// A dependency's effective name: the package it renames when a rename is
/// declared, its declared name otherwise.
pub open spec fn effective_name(d: DependencyV) -> Seq<char> {
    match d.rename {
        Option::Some(r) => r,
        Option::None => d.name,
    }
}

/// Whether a dependency yields an edge: it is not registry-hosted and its
/// effective name is a workspace member.
pub open spec fn dep_included(members: Seq<Seq<char>>, d: DependencyV) -> bool {
    &&& !d.registry_hosted
    &&& members.contains(effective_name(d))
}

/// The edge a member's included dependency yields.
pub open spec fn dep_rel(member: Seq<char>, d: DependencyV) -> RelationshipV {
    RelationshipV {
        kind: RelationshipKind::Rel,
        from: member,
        to: effective_name(d),
        description: "depends"@,
    }
}

/// The element registered for a dependency target: a container titled by
/// the name itself, with an empty description.
pub open spec fn target_elem(x: Seq<char>) -> ElementV {
    ElementV { kind: ElementKind::Container, id: x, title: x, description: Seq::empty() }
}

/// The edges of one member's first `k` dependencies, in order.
pub open spec fn member_rels(
    member: Seq<char>,
    deps: Seq<DependencyV>,
    members: Seq<Seq<char>>,
    k: int,
) -> Seq<RelationshipV>
    decreases k,
{
    if k <= 0 || k > deps.len() {
        Seq::empty()
    } else {
        member_rels(member, deps, members, k - 1) + (if dep_included(members, deps[k - 1]) {
            seq![dep_rel(member, deps[k - 1])]
        } else {
            Seq::empty()
        })
    }
}

/// The edges of the first `end` members, in order.
pub open spec fn workspace_rels(ws: WorkspaceV, end: int) -> Seq<RelationshipV>
    decreases end,
{
    if end <= 0 || end > ws.members.len() || ws.manifests.len() != ws.members.len() {
        Seq::empty()
    } else {
        workspace_rels(ws, end - 1) + member_rels(
            ws.members[end - 1],
            ws.manifests[end - 1].dependencies,
            ws.members,
            ws.manifests[end - 1].dependencies.len() as int,
        )
    }
}

/// Whether `x` is the effective name of an included dependency of one of
/// the first `end` members: exactly the ids the adapter registers.
pub open spec fn target_in(ws: WorkspaceV, end: int, x: Seq<char>) -> bool {
    exists|i: int, k: int|
        0 <= i < end && 0 <= k < ws.manifests[i].dependencies.len() && #[trigger] dep_included(
            ws.members,
            ws.manifests[i].dependencies[k],
        ) && effective_name(ws.manifests[i].dependencies[k]) == x
}

/// For each member in order, for each of its dependencies in order: skip it
/// if registry-hosted; else, if its effective name is another member,
/// register a container element for the target (if none carries that id
/// yet) and append a `member -> target` edge labelled "depends". A member
/// whose manifest has no package is a `MalformedMetadata` error naming the
/// member; earlier members' work stays in the diagram. Member elements are
/// not registered here, so these edges may dangle; rendering without
/// `clean` keeps them.
pub fn parse_workspace(diagram: &mut Diagram, ws: &WorkspaceData) -> (res: Result<(), Error>)
    requires
        old(diagram).wf(),
        ws.wf(),
    ensures
        final(diagram).wf(),
        final(diagram)@.title == old(diagram)@.title,
        final(diagram)@.filter == old(diagram)@.filter,
        old(diagram)@.relationships.is_prefix_of(final(diagram)@.relationships),
        forall|k: int|
            0 <= k < final(diagram)@.elements.len() ==> (has_elem(
                old(diagram)@.elements,
                #[trigger] final(diagram)@.elements[k],
            ) || final(diagram)@.elements[k] == target_elem(final(diagram)@.elements[k].id)),
        match res {
            Result::Ok(_) => {
                &&& (forall|i: int| 0 <= i < ws@.manifests.len() ==> (#[trigger] ws@.manifests[i]).has_package)
                &&& final(diagram)@.relationships == old(diagram)@.relationships + workspace_rels(
                    ws@,
                    ws@.members.len() as int,
                )
                &&& (forall|x: Seq<char>|
                    #[trigger] has_id(final(diagram)@.elements, x) <==> (has_id(
                        old(diagram)@.elements,
                        x,
                    ) || target_in(ws@, ws@.members.len() as int, x)))
            },
            Result::Err(e) => match e {
                Error::MalformedMetadata { id } => exists|i: int|
                    0 <= i < ws@.manifests.len() && !(#[trigger] ws@.manifests[i]).has_package && (
                    forall|j: int| 0 <= j < i ==> (#[trigger] ws@.manifests[j]).has_package)
                        && id@ == ws@.members[i] && final(diagram)@.relationships == old(
                        diagram,
                    )@.relationships + workspace_rels(ws@, i) && (forall|x: Seq<char>|
                        #[trigger] has_id(final(diagram)@.elements, x) <==> (has_id(
                            old(diagram)@.elements,
                            x,
                        ) || target_in(ws@, i, x))),
                _ => false,
            },
        },
{
    let ghost d0 = diagram@;
    let ghost wsv = ws@;
    let n = ws.members.len();
    let mut i: usize = 0;
    proof {
        assert(workspace_rels(wsv, 0) =~= Seq::<RelationshipV>::empty());
        assert(diagram@.relationships =~= d0.relationships + workspace_rels(wsv, 0));
    }
    while i < n
        invariant
            wsv == ws@,
            ws.wf(),
            n == ws@.members.len(),
            0 <= i <= n,
            diagram.wf(),
            diagram@.title == d0.title,
            diagram@.filter == d0.filter,
            d0 == old(diagram)@,
            d0.relationships.is_prefix_of(diagram@.relationships),
            diagram@.relationships == d0.relationships + workspace_rels(wsv, i as int),
            forall|j: int| 0 <= j < i ==> (#[trigger] wsv.manifests[j]).has_package,
            forall|x: Seq<char>|
                #[trigger] has_id(diagram@.elements, x) <==> (has_id(d0.elements, x) || target_in(
                    wsv,
                    i as int,
                    x,
                )),
            forall|k: int|
                0 <= k < diagram@.elements.len() ==> (has_elem(
                    d0.elements,
                    #[trigger] diagram@.elements[k],
                ) || diagram@.elements[k] == target_elem(diagram@.elements[k].id)),
        decreases n - i,
    {
        let member: String = ws.members[i].clone();
        let ghost memberv = member@;
        proof {
            assert(memberv == wsv.members[i as int]);
        }
        if !ws.manifests[i].has_package {
            proof {
                assert(!(wsv.manifests[i as int]).has_package);
            }
            return Err(Error::MalformedMetadata { id: member });
        }
        let deps = &ws.manifests[i].dependencies;
        let ghost depsv = wsv.manifests[i as int].dependencies;
        proof {
            assert(depsv == deps@.map_values(|d: DependencyData| d@));
            assert(member_rels(memberv, depsv, wsv.members, 0) =~= Seq::<RelationshipV>::empty());
            assert(diagram@.relationships =~= (d0.relationships + workspace_rels(wsv, i as int))
                + member_rels(memberv, depsv, wsv.members, 0));
        }
        let mut k: usize = 0;
        while k < deps.len()
            invariant
                wsv == ws@,
                ws.wf(),
                n == ws@.members.len(),
                0 <= i < n,
                0 <= k <= deps@.len(),
                memberv == wsv.members[i as int],
                member@ == memberv,
                depsv == wsv.manifests[i as int].dependencies,
                depsv == deps@.map_values(|d: DependencyData| d@),
                diagram.wf(),
                diagram@.title == d0.title,
                diagram@.filter == d0.filter,
                d0 == old(diagram)@,
                d0.relationships.is_prefix_of(diagram@.relationships),
                diagram@.relationships == (d0.relationships + workspace_rels(wsv, i as int))
                    + member_rels(memberv, depsv, wsv.members, k as int),
                forall|x: Seq<char>|
                    #[trigger] has_id(diagram@.elements, x) <==> (has_id(d0.elements, x)
                        || target_in(wsv, i as int, x) || (exists|k2: int|
                        0 <= k2 < k && #[trigger] dep_included(wsv.members, depsv[k2])
                            && effective_name(depsv[k2]) == x)),
                forall|kk: int|
                    0 <= kk < diagram@.elements.len() ==> (has_elem(
                        d0.elements,
                        #[trigger] diagram@.elements[kk],
                    ) || diagram@.elements[kk] == target_elem(diagram@.elements[kk].id)),
            decreases deps@.len() - k,
        {
            let ghost dv = depsv[k as int];
            let included: bool = if deps[k].registry_hosted {
                false
            } else {
                let eff: &String = match &deps[k].rename {
                    Option::Some(r) => r,
                    Option::None => &deps[k].name,
                };
                contains_name(&ws.members, eff)
            };
            proof {
                assert(deps@[k as int]@ == dv);
                if included {
                    let m = choose|m: int|
                        0 <= m < ws.members@.len() && ws.members@[m]@ == effective_name(dv);
                    assert(wsv.members[m] == effective_name(dv));
                    assert(dep_included(wsv.members, dv));
                } else {
                    if dep_included(wsv.members, dv) {
                        let m = choose|m: int|
                            0 <= m < wsv.members.len() && wsv.members[m] == effective_name(dv);
                        assert(ws.members@[m]@ == effective_name(dv));
                        assert(names_contain(ws.members@, effective_name(dv)));
                    }
                }
                assert(included == dep_included(wsv.members, dv));
            }
            if included {
                let eff_s: String = match &deps[k].rename {
                    Option::Some(r) => r.clone(),
                    Option::None => deps[k].name.clone(),
                };
                let ghost effv = eff_s@;
                proof {
                    assert(effv == effective_name(dv));
                }
                if !diagram.has_element(&eff_s) {
                    let ghost dpre = diagram@;
                    diagram.add_element(Element {
                        kind: ElementKind::Container,
                        id: eff_s.clone(),
                        title: eff_s.clone(),
                        description: String::new(),
                    });
                    proof {
                        assert forall|x: Seq<char>| #[trigger] has_id(diagram@.elements, x) <==> (
                        has_id(d0.elements, x) || target_in(wsv, i as int, x) || (exists|k2: int|
                            0 <= k2 < k + 1 && #[trigger] dep_included(wsv.members, depsv[k2])
                                && effective_name(depsv[k2]) == x)) by {
                            if has_id(diagram@.elements, x) {
                                if x == effv {
                                    assert(dep_included(wsv.members, depsv[k as int])
                                        && effective_name(depsv[k as int]) == x);
                                } else {
                                    assert(has_id(dpre.elements, x));
                                }
                            } else {
                                assert(!has_id(dpre.elements, x) && x != effv);
                            }
                        }
                    }
                } else {
                    proof {
                        assert(has_id(diagram@.elements, effv));
                        assert forall|x: Seq<char>| #[trigger] has_id(diagram@.elements, x) <==> (
                        has_id(d0.elements, x) || target_in(wsv, i as int, x) || (exists|k2: int|
                            0 <= k2 < k + 1 && #[trigger] dep_included(wsv.members, depsv[k2])
                                && effective_name(depsv[k2]) == x)) by {
                            if !has_id(diagram@.elements, x) {
                                assert(x != effv);
                            }
                        }
                    }
                }
                let ghost dpre2 = diagram@;
                let rel = Relationship {
                    kind: RelationshipKind::Rel,
                    from: member.clone(),
                    to: eff_s,
                    description: "depends".to_owned(),
                };
                let ghost relv = rel@;
                proof {
                    assert(relv.kind is Rel);
                    assert(relv.from == memberv);
                    assert(relv.to == effective_name(dv));
                    assert(relv.description == "depends"@);
                    assert(dep_rel(memberv, dv).kind is Rel);
                    assert(relv == dep_rel(memberv, dv));
                }
                diagram.add_relationship(rel);
                proof {
                    assert(diagram@.relationships == dpre2.relationships.push(relv));
                    assert(member_rels(memberv, depsv, wsv.members, k as int + 1) == member_rels(
                        memberv,
                        depsv,
                        wsv.members,
                        k as int,
                    ) + seq![relv]);
                    assert(dpre2.relationships.push(relv) =~= dpre2.relationships + seq![relv]);
                    assert(((d0.relationships + workspace_rels(wsv, i as int)) + member_rels(
                        memberv,
                        depsv,
                        wsv.members,
                        k as int,
                    )) + seq![relv] =~= (d0.relationships + workspace_rels(wsv, i as int))
                        + (member_rels(memberv, depsv, wsv.members, k as int) + seq![relv]));
                    assert(d0.relationships.is_prefix_of(diagram@.relationships)) by {
                        assert(forall|q: int|
                            0 <= q < d0.relationships.len() ==> diagram@.relationships[q]
                                == dpre2.relationships[q]);
                    }
                }
            } else {
                proof {
                    assert(member_rels(memberv, depsv, wsv.members, k as int + 1) == member_rels(
                        memberv,
                        depsv,
                        wsv.members,
                        k as int,
                    ));
                    assert forall|x: Seq<char>| #[trigger] has_id(diagram@.elements, x) <==> (
                    has_id(d0.elements, x) || target_in(wsv, i as int, x) || (exists|k2: int|
                        0 <= k2 < k + 1 && #[trigger] dep_included(wsv.members, depsv[k2])
                            && effective_name(depsv[k2]) == x)) by {
                        if !has_id(diagram@.elements, x) {
                            if exists|k2: int|
                                0 <= k2 < k + 1 && #[trigger] dep_included(wsv.members, depsv[k2])
                                    && effective_name(depsv[k2]) == x {
                                let k2 = choose|k2: int|
                                    0 <= k2 < k + 1 && #[trigger] dep_included(
                                        wsv.members,
                                        depsv[k2],
                                    ) && effective_name(depsv[k2]) == x;
                                assert(k2 < k);
                            }
                        }
                    }
                }
            }
            k = k + 1;
        }
        proof {
            assert(workspace_rels(wsv, i as int + 1) == workspace_rels(wsv, i as int)
                + member_rels(memberv, depsv, wsv.members, depsv.len() as int));
            assert((d0.relationships + workspace_rels(wsv, i as int)) + member_rels(
                memberv,
                depsv,
                wsv.members,
                depsv.len() as int,
            ) =~= d0.relationships + (workspace_rels(wsv, i as int) + member_rels(
                memberv,
                depsv,
                wsv.members,
                depsv.len() as int,
            )));
            assert forall|x: Seq<char>| #[trigger] has_id(diagram@.elements, x) <==> (has_id(
                d0.elements,
                x,
            ) || target_in(wsv, i as int + 1, x)) by {
                if has_id(diagram@.elements, x) && !has_id(d0.elements, x) {
                    if target_in(wsv, i as int, x) {
                    } else {
                        let k2 = choose|k2: int|
                            0 <= k2 < depsv.len() && #[trigger] dep_included(wsv.members, depsv[k2])
                                && effective_name(depsv[k2]) == x;
                        assert(dep_included(wsv.members, wsv.manifests[i as int].dependencies[k2])
                            && effective_name(wsv.manifests[i as int].dependencies[k2]) == x);
                    }
                }
                if !has_id(diagram@.elements, x) {
                    if target_in(wsv, i as int + 1, x) {
                        let (i2, k2) = choose|i2: int, k2: int|
                            0 <= i2 < i + 1 && 0 <= k2 < wsv.manifests[i2].dependencies.len()
                                && #[trigger] dep_included(
                                wsv.members,
                                wsv.manifests[i2].dependencies[k2],
                            ) && effective_name(wsv.manifests[i2].dependencies[k2]) == x;
                        if i2 < i {
                            assert(target_in(wsv, i as int, x));
                        }
                    }
                }
            }
        }
        i = i + 1;
    }
    Ok(())
}

} // verus!
