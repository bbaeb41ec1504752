//! The property model of a parsed calendar component: named properties,
//! each with an optional value and a list of named parameters, and the
//! first-match lookups the calendar logic is built on.

use vstd::prelude::*;

use crate::text::str_eq;

verus! {

/// A property parameter: a name and its list of values.
#[derive(Clone, Debug)]
pub struct Param {
    pub name: String,
    pub values: Vec<String>,
}

/// The mathematical shape of a `Param`.
pub struct SpecParam {
    pub name: Seq<char>,
    pub values: Seq<Seq<char>>,
}

impl View for Param {
    type V = SpecParam;

    open spec fn view(&self) -> SpecParam {
        SpecParam { name: self.name@, values: self.values.deep_view() }
    }
}

impl DeepView for Param {
    type V = SpecParam;

    open spec fn deep_view(&self) -> SpecParam {
        self.view()
    }
}

/// One property of a calendar component: a name, an optional value and the
/// parameters attached to it.
#[derive(Clone, Debug)]
pub struct Prop {
    pub name: String,
    pub value: Option<String>,
    pub params: Vec<Param>,
}

/// The mathematical shape of a `Prop`.
pub struct SpecProp {
    pub name: Seq<char>,
    pub value: Option<Seq<char>>,
    pub params: Seq<SpecParam>,
}

impl View for Prop {
    type V = SpecProp;

    open spec fn view(&self) -> SpecProp {
        SpecProp { name: self.name@, value: self.value.deep_view(), params: self.params.deep_view() }
    }
}

impl DeepView for Prop {
    type V = SpecProp;

    open spec fn deep_view(&self) -> SpecProp {
        self.view()
    }
}

/// The first property of `props` named `name`.
pub open spec fn spec_find_prop(props: Seq<SpecProp>, name: Seq<char>) -> Option<SpecProp>
    decreases props.len(),
{
    if props.len() == 0 {
        None
    } else if props[0].name == name {
        Some(props[0])
    } else {
        spec_find_prop(props.drop_first(), name)
    }
}

/// Looks up the first property of `props` named `name`.
pub fn find_prop<'a>(props: &'a Vec<Prop>, name: &str) -> (r: Option<&'a Prop>)
    ensures
        match r {
            Some(p) => spec_find_prop(props.deep_view(), name@) == Some(p.deep_view()),
            None => spec_find_prop(props.deep_view(), name@) is None,
        },
{
    let ghost s = props.deep_view();
    proof {
        assert(s.skip(0) =~= s);
    }
    let mut i: usize = 0;
    while i < props.len()
        invariant
            i <= props.len(),
            s.len() == props.len(),
            spec_find_prop(s, name@) == spec_find_prop(s.skip(i as int), name@),
        decreases props.len() - i,
    {
        proof {
            assert(s.skip(i as int)[0] == s[i as int]);
            assert(s[i as int] == props[i as int].deep_view());
        }
        if str_eq(props[i].name.as_str(), name) {
            return Some(&props[i]);
        }
        proof {
            assert(s.skip(i as int).drop_first() =~= s.skip(i as int + 1));
        }
        i = i + 1;
    }
    proof {
        assert(s.skip(i as int) =~= Seq::<SpecProp>::empty());
    }
    None
}

/// The first value of the first parameter of `p` named `name`.
pub open spec fn spec_find_param(params: Seq<SpecParam>, name: Seq<char>) -> Option<Seq<char>>
    decreases params.len(),
{
    if params.len() == 0 {
        None
    } else if params[0].name == name {
        if params[0].values.len() > 0 {
            Some(params[0].values[0])
        } else {
            None
        }
    } else {
        spec_find_param(params.drop_first(), name)
    }
}

/// Looks up the first value of the first parameter of `p` named `name`.
pub fn find_param(p: &Prop, name: &str) -> (r: Option<String>)
    ensures
        r.deep_view() == spec_find_param(p.deep_view().params, name@),
{
    let ghost s = p.deep_view().params;
    proof {
        assert(s.skip(0) =~= s);
    }
    let mut i: usize = 0;
    while i < p.params.len()
        invariant
            i <= p.params.len(),
            s.len() == p.params.len(),
            spec_find_param(s, name@) == spec_find_param(s.skip(i as int), name@),
        decreases p.params.len() - i,
    {
        proof {
            assert(s.skip(i as int)[0] == s[i as int]);
            assert(s[i as int] == p.params[i as int].deep_view());
        }
        if str_eq(p.params[i].name.as_str(), name) {
            if p.params[i].values.len() > 0 {
                let v = p.params[i].values[0].clone();
                proof {
                    assert(s[i as int].values[0] == p.params[i as int].values[0 as int]@);
                }
                return Some(v);
            } else {
                return None;
            }
        }
        proof {
            assert(s.skip(i as int).drop_first() =~= s.skip(i as int + 1));
        }
        i = i + 1;
    }
    proof {
        assert(s.skip(i as int) =~= Seq::<SpecParam>::empty());
    }
    None
}

/// The value of the first property of `props` named `name`, when that
/// property is present and carries one.
pub open spec fn spec_prop_value(props: Seq<SpecProp>, name: Seq<char>) -> Option<Seq<char>> {
    match spec_find_prop(props, name) {
        Some(p) => p.value,
        None => None,
    }
}

/// Looks up the value of the property named `name`; empty when the property
/// is missing or valueless.
pub fn prop_value(props: &Vec<Prop>, name: &str) -> (r: Option<String>)
    ensures
        r.deep_view() == spec_prop_value(props.deep_view(), name@),
{
    match find_prop(props, name) {
        Some(p) => match &p.value {
            Some(v) => Some(v.clone()),
            None => None,
        },
        None => None,
    }
}

} // verus!
