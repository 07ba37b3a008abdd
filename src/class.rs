use vstd::prelude::*;
use vstd::string::StringExecFns;

use crate::error::{ErrorType, TCError};
use crate::replication::{path_view, same_path};

verus! {

/// A parameter of a class definition, as far as a definition reads it.
#[derive(Debug)]
pub enum ClassParam {
    /// A link, as its path segments.
    Link(Vec<String>),
    /// An object: named members, each an encoded value.
    Object(Vec<(String, Vec<u8>)>),
    /// Any other value.
    Other,
}

/// A user-defined class: the class it extends, if any, and its prototype members.
#[derive(Debug)]
pub struct InstanceClass {
    extends: Option<Vec<String>>,
    proto: Vec<(String, Vec<u8>)>,
}

/// The path under which user-defined classes are defined.
pub open spec fn class_type_prefix() -> Seq<Seq<char>> {
    seq!["state"@, "object"@, "class"@]
}

/// The path of the generic object type, which a class extends by default.
pub open spec fn object_prefix() -> Seq<Seq<char>> {
    seq!["state"@, "object"@]
}

/// A parameter that a class definition accepts: `extends` with a link, or `proto` with an
/// object.
pub open spec fn param_ok(name: Seq<char>, param: ClassParam) -> bool {
    (name == "extends"@ && param is Link) || (name == "proto"@ && param is Object)
}

/// The link of the last `extends` parameter, if any.
pub open spec fn extends_of(data: Seq<(String, ClassParam)>) -> Option<Seq<Seq<char>>>
    decreases data.len(),
{
    if data.len() == 0 {
        None
    } else if data.last().0@ == "extends"@ && data.last().1 is Link {
        Some(path_view(data.last().1->Link_0@))
    } else {
        extends_of(data.drop_last())
    }
}

/// The member names of the last `proto` parameter, none where there is no such parameter.
pub open spec fn proto_of(data: Seq<(String, ClassParam)>) -> Seq<Seq<char>>
    decreases data.len(),
{
    if data.len() == 0 {
        Seq::empty()
    } else if data.last().0@ == "proto"@ && data.last().1 is Object {
        data.last().1->Object_0@.map_values(|m: (String, Vec<u8>)| m.0@)
    } else {
        proto_of(data.drop_last())
    }
}

fn copy_segments(path: &Vec<String>) -> (r: Vec<String>)
    ensures
        path_view(r@) == path_view(path@),
{
    let mut r: Vec<String> = Vec::new();
    let mut i: usize = 0;
    while i < path.len()
        invariant
            i <= path@.len(),
            path_view(r@) == path_view(path@).take(i as int),
        decreases path@.len() - i,
    {
        let c = path[i].clone();
        let ghost prev = r@;
        r.push(c);
        assert(path_view(r@) =~= path_view(prev).push(c@));
        assert(path_view(r@) =~= path_view(path@).take(i + 1));
        i = i + 1;
    }
    assert(path_view(path@).take(i as int) =~= path_view(path@));
    r
}

fn segments(a: &str, b: &str, c: Option<&str>) -> (r: Vec<String>)
    ensures
        c is None ==> path_view(r@) == seq![a@, b@],
        c is Some ==> path_view(r@) == seq![a@, b@, c->Some_0@],
{
    let mut r: Vec<String> = Vec::new();
    r.push(String::from_str(a));
    r.push(String::from_str(b));
    if let Some(c) = c {
        r.push(String::from_str(c));
    }
    assert(c is None ==> path_view(r@) =~= seq![a@, b@]);
    assert(c is Some ==> path_view(r@) =~= seq![a@, b@, c->Some_0@]);
    r
}

/// The type of user-defined classes.
pub struct InstanceClassType;

impl InstanceClassType {
    /// The path under which classes are defined.
    pub fn prefix() -> (r: Vec<String>)
        ensures
            path_view(r@) == class_type_prefix(),
    {
        proof {
            reveal_strlit("state");
            reveal_strlit("object");
            reveal_strlit("class");
        }
        segments("state", "object", Some("class"))
    }

    /// Defines a class from its parameters, at the class path. Another path is not found; a
    /// parameter other than `extends` with a link or `proto` with an object is a bad request.
    pub fn post(path: &Vec<String>, data: Vec<(String, ClassParam)>) -> (r: Result<InstanceClass, TCError>)
        ensures
            path_view(path@) != class_type_prefix() ==> r is Err && r->Err_0.spec_code() == ErrorType::NotFound,
            path_view(path@) == class_type_prefix() ==> {
                &&& r is Ok <==> forall|i: int| 0 <= i < data@.len() ==> param_ok((#[trigger] data@[i]).0@, data@[i].1)
                &&& r is Err ==> r->Err_0.spec_code() == ErrorType::BadRequest
            },
            r matches Ok(c) ==> c.spec_extends() == extends_of(data@) && c.spec_proto() == proto_of(data@),
    {
        proof {
            reveal_strlit("extends");
            reveal_strlit("proto");
            assert("extends"@.len() != "proto"@.len());
        }
        let prefix = InstanceClassType::prefix();
        if !same_path(path, &prefix) {
            return Err(TCError::not_found("no class type at this path"));
        }
        let extends_name = String::from_str("extends");
        let proto_name = String::from_str("proto");
        let mut extends: Option<Vec<String>> = None;
        let mut proto: Vec<(String, Vec<u8>)> = Vec::new();
        let ghost d = data@;
        let mut i: usize = 0;
        assert(d.subrange(0, 0) =~= Seq::<(String, ClassParam)>::empty());
        while i < data.len()
            invariant
                i <= d.len(),
                d == data@,
                path_view(path@) == class_type_prefix(),
                extends_name@ == "extends"@,
                proto_name@ == "proto"@,
                "extends"@ != "proto"@,
                forall|j: int| 0 <= j < i ==> param_ok((#[trigger] d[j]).0@, d[j].1),
                match extends {
                    Some(e) => extends_of(d.subrange(0, i as int)) == Some(path_view(e@)),
                    None => extends_of(d.subrange(0, i as int)) is None,
                },
                proto@.map_values(|m: (String, Vec<u8>)| m.0@) == proto_of(d.subrange(0, i as int)),
            decreases d.len() - i,
        {
            let ghost s = d.subrange(0, i + 1);
            assert(s.drop_last() =~= d.subrange(0, i as int));
            assert(s.last() == d[i as int]);
            let entry = &data[i];
            if entry.0 == extends_name {
                match &entry.1 {
                    ClassParam::Link(link) => {
                        extends = Some(copy_segments(link));
                    },
                    _ => {
                        assert(!param_ok(d[i as int].0@, d[i as int].1));
                        return Err(TCError::bad_request("extends must be a link to a class", "extends"));
                    },
                }
            } else if entry.0 == proto_name {
                match &entry.1 {
                    ClassParam::Object(members) => {
                        let mut copy: Vec<(String, Vec<u8>)> = Vec::new();
                        let mut k: usize = 0;
                        while k < members.len()
                            invariant
                                k <= members@.len(),
                                copy@.map_values(|m: (String, Vec<u8>)| m.0@) == members@.map_values(
                                    |m: (String, Vec<u8>)| m.0@,
                                ).take(k as int),
                            decreases members@.len() - k,
                        {
                            let name = members[k].0.clone();
                            let value = members[k].1.clone();
                            let ghost prev = copy@;
                            copy.push((name, value));
                            assert(copy@ =~= prev.push((name, value)));
                            assert(copy@.map_values(|m: (String, Vec<u8>)| m.0@) =~= prev.map_values(
                                |m: (String, Vec<u8>)| m.0@,
                            ).push(members@[k as int].0@));
                            assert(copy@.map_values(|m: (String, Vec<u8>)| m.0@) =~= members@.map_values(
                                |m: (String, Vec<u8>)| m.0@,
                            ).take(k + 1));
                            k = k + 1;
                        }
                        assert(members@.map_values(|m: (String, Vec<u8>)| m.0@).take(k as int)
                            =~= members@.map_values(|m: (String, Vec<u8>)| m.0@));
                        proto = copy;
                    },
                    _ => {
                        assert(!param_ok(d[i as int].0@, d[i as int].1));
                        return Err(TCError::bad_request("proto must be an object", "proto"));
                    },
                }
            } else {
                assert(!param_ok(d[i as int].0@, d[i as int].1));
                return Err(TCError::bad_request("unrecognized class parameter", entry.0.as_str()));
            }
            i = i + 1;
        }
        assert(d.subrange(0, i as int) =~= d);
        Ok(InstanceClass { extends, proto })
    }
}

impl InstanceClass {
    /// The class that this class extends, if any.
    pub closed spec fn spec_extends(&self) -> Option<Seq<Seq<char>>> {
        match self.extends {
            Some(e) => Some(path_view(e@)),
            None => None,
        }
    }

    /// The names of the prototype's members.
    pub closed spec fn spec_proto(&self) -> Seq<Seq<char>> {
        self.proto@.map_values(|m: (String, Vec<u8>)| m.0@)
    }

    /// The path of the generic object type.
    pub fn prefix() -> (r: Vec<String>)
        ensures
            path_view(r@) == object_prefix(),
    {
        proof {
            reveal_strlit("state");
            reveal_strlit("object");
        }
        segments("state", "object", None)
    }

    /// The class this class extends: the one it names, else the generic object type.
    pub fn extends(&self) -> (r: Vec<String>)
        ensures
            path_view(r@) == match self.spec_extends() {
                Some(e) => e,
                None => object_prefix(),
            },
    {
        match &self.extends {
            Some(e) => copy_segments(e),
            None => InstanceClass::prefix(),
        }
    }

    /// The prototype's members.
    pub fn proto(&self) -> (r: &Vec<(String, Vec<u8>)>)
        ensures
            r@.map_values(|m: (String, Vec<u8>)| m.0@) == self.spec_proto(),
    {
        &self.proto
    }

    /// A call on a class: the class itself does not take one, and nothing lies below it.
    pub fn post(path: &Vec<String>) -> (r: TCError)
        ensures
            path@.len() == 0 ==> r.spec_code() == ErrorType::NotImplemented,
            path@.len() > 0 ==> r.spec_code() == ErrorType::NotFound,
    {
        if path.len() == 0 {
            TCError::not_implemented("calling a class")
        } else {
            TCError::not_found("no member at this path")
        }
    }
}

} // verus!
