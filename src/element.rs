//! The read-only view of an element that layout may hold.

use vstd::prelude::*;
use crate::dom::{Attr, Element, ElementTypeId};

verus! {

/// An attribute's namespace as a plain value.
pub open spec fn ns_view(ns: Option<String>) -> Option<Seq<char>> {
    match ns {
        Some(s) => Some(s@),
        None => None,
    }
}

/// The value of the first attribute among `attrs` with namespace `ns` and
/// name `name`.
pub open spec fn attr_lookup(attrs: Seq<Attr>, ns: Option<Seq<char>>, name: Seq<char>) -> Option<Seq<char>>
    decreases attrs.len(),
{
    if attrs.len() == 0 {
        None
    } else if ns_view(attrs[0].namespace) == ns && attrs[0].name@ == name {
        Some(attrs[0].value@)
    } else {
        attr_lookup(attrs.drop_first(), ns, name)
    }
}

/// Elements whose `href` is a hyperlink.
pub open spec fn is_link_type(t: ElementTypeId) -> bool {
    t == ElementTypeId::HTMLAnchorElementTypeId || t == ElementTypeId::HTMLAreaElementTypeId
        || t == ElementTypeId::HTMLLinkElementTypeId
}

pub open spec fn href_name() -> Seq<char> {
    seq!['h', 'r', 'e', 'f']
}

/// The hyperlink target of an element, if it is a hyperlink.
pub open spec fn link_of(e: Element) -> Option<Seq<char>> {
    if is_link_type(e.type_id) {
        attr_lookup(e.attrs@, None, href_name())
    } else {
        None
    }
}

pub open spec fn str_view<'a>(o: Option<&'a str>) -> Option<Seq<char>> {
    match o {
        Some(s) => Some(s@),
        None => None,
    }
}

/// A wrapper around an element that lets layout read only what it should.
pub struct LayoutElement<'le> {
    element: &'le Element,
}

impl<'le> View for LayoutElement<'le> {
    type V = Element;

    closed spec fn view(&self) -> Element {
        *self.element
    }
}

impl<'le> LayoutElement<'le> {
    pub fn new(element: &'le Element) -> (r: LayoutElement<'le>)
        ensures
            r@ == *element,
    {
        LayoutElement { element }
    }

    pub fn style_attribute(&self) -> (r: &'le Option<String>)
        ensures
            *r == self@.style_attribute,
    {
        &self.element.style_attribute
    }

    pub fn get_local_name(&self) -> (r: &'le str)
        ensures
            r@ == self@.tag_name@,
    {
        self.element.tag_name.as_str()
    }

    pub fn get_namespace_url(&self) -> (r: &'le str)
        ensures
            r@ == self@.namespace@,
    {
        self.element.namespace.as_str()
    }

    /// The value of the attribute `name` in the namespace with URL `ns_url`
    /// (`None`: the null namespace), borrowed from the element.
    pub fn get_attr(&self, ns_url: Option<String>, name: &str) -> (r: Option<&'le str>)
        ensures
            str_view(r) == attr_lookup(self@.attrs@, ns_view(ns_url), name@),
    {
        let e: &'le Element = self.element;
        let name_owned: String = name.to_owned();
        let mut i: usize = 0;
        proof {
            assert(e.attrs@.subrange(0, e.attrs@.len() as int) =~= e.attrs@);
        }
        while i < e.attrs.len()
            invariant
                0 <= i <= e.attrs@.len(),
                name_owned@ == name@,
                *e == self@,
                attr_lookup(e.attrs@, ns_view(ns_url), name@) == attr_lookup(
                    e.attrs@.subrange(i as int, e.attrs@.len() as int),
                    ns_view(ns_url),
                    name@,
                ),
            decreases e.attrs@.len() - i,
        {
            let a: &'le Attr = &e.attrs[i];
            let ns_matches = match (&a.namespace, &ns_url) {
                (Some(x), Some(y)) => *x == *y,
                (None, None) => true,
                _ => false,
            };
            proof {
                let rest = e.attrs@.subrange(i as int, e.attrs@.len() as int);
                assert(rest[0] == *a);
                assert(rest.drop_first() =~= e.attrs@.subrange(i + 1, e.attrs@.len() as int));
            }
            assert(ns_matches == (ns_view(a.namespace) == ns_view(ns_url)));
            if ns_matches && a.name == name_owned {
                let v: &'le str = a.value.as_str();
                proof {
                    let rest = e.attrs@.subrange(i as int, e.attrs@.len() as int);
                    assert(attr_lookup(rest, ns_view(ns_url), name@) == Some(a.value@));
                    assert(v@ == a.value@);
                }
                return Some(v);
            }
            i = i + 1;
        }
        proof {
            assert(e.attrs@.subrange(i as int, e.attrs@.len() as int).len() == 0);
        }
        None
    }

    /// The `href` of an anchor, area or link element; `None` for any other
    /// element.
    pub fn get_link(&self) -> (r: Option<String>)
        ensures
            match r {
                Some(s) => link_of(self@) == Some(s@),
                None => link_of(self@) is None,
            },
    {
        match self.element.type_id {
            ElementTypeId::HTMLAnchorElementTypeId
            | ElementTypeId::HTMLAreaElementTypeId
            | ElementTypeId::HTMLLinkElementTypeId => {
                proof {
                    reveal_strlit("href");
                    assert("href"@ =~= href_name());
                }
                match self.get_attr(None, "href") {
                    Some(v) => Some(v.to_owned()),
                    None => None,
                }
            },
            _ => None,
        }
    }
}

} // verus!
