use vstd::prelude::*;

verus! {

use std::collections::HashMap;
use crate::rng::{RNG, RngState};
use vstd::string::StringSliceAdditionalSpecFns;
use crate::sealed::Sealed;

/// A node's custom data as plain values: which kind of value it is, and the
/// value's bytes. Two custom data are equal when both agree.
pub struct CustomData {
    pub type_tag: u64,
    pub bytes: Vec<u8>,
}

/// Abstract form of [`CustomData`].
pub struct CustomDataView {
    pub type_tag: u64,
    pub bytes: Seq<u8>,
}

impl View for CustomData {
    type V = CustomDataView;

    open spec fn view(&self) -> CustomDataView {
        CustomDataView { type_tag: self.type_tag, bytes: self.bytes@ }
    }
}

/// Values that can be attached to a node. Each type has its own tag, and
/// each value one plain form, from which it is read back: values of
/// different types never share a plain form, and neither do different values
/// of one type. The trait is implemented here for `()`, `bool`, `i32`,
/// `u32`, `i64`, `u64`, `u8`, `u16`, `i8`, `i16`, `usize` and `isize`, with
/// tags 0 to 11, and cannot be implemented elsewhere, so no two types share
/// a tag.
pub trait ValidCustomData: Sized + Sealed {
    /// The tag of the type.
    spec fn type_tag() -> u64;

    /// The plain form of the value.
    spec fn custom_view(&self) -> CustomDataView;

    /// A value's plain form carries its type's tag.
    proof fn lemma_custom_view_tag(x: &Self)
        ensures
            x.custom_view().type_tag == Self::type_tag(),
    ;

    /// Different values have different plain forms.
    proof fn lemma_custom_view_injective(x: &Self, y: &Self)
        requires
            x.custom_view() == y.custom_view(),
        ensures
            *x == *y,
    ;

    /// Builds the plain form of the value.
    fn to_custom_data(&self) -> (d: CustomData)
        ensures
            d@ == self.custom_view(),
    ;

    /// Reads a value back from a plain form: the value whose plain form it is,
    /// or `None` when it is no value's plain form.
    fn from_custom_data(d: &CustomData) -> (r: Option<Self>)
        ensures
            r matches Some(x) ==> x.custom_view() == d@,
            r is None ==> forall|x: Self| #[trigger] x.custom_view() != d@,
            forall|x: Self| #[trigger] x.custom_view() == d@ ==> r == Some(x),
    ;
}

/// The little-endian bytes of a 32-bit word.
pub open spec fn u32_bytes(u: u32) -> Seq<u8> {
    seq![(u & 0xff) as u8, ((u >> 8u32) & 0xff) as u8, ((u >> 16u32) & 0xff) as u8, ((u >> 24u32) & 0xff) as u8]
}

/// The little-endian bytes of a 64-bit word.
pub open spec fn u64_bytes(u: u64) -> Seq<u8> {
    u32_bytes((u & 0xffff_ffff) as u32) + u32_bytes((u >> 32u64) as u32)
}

proof fn lemma_u32_bytes_injective(a: u32, b: u32)
    requires
        u32_bytes(a) == u32_bytes(b),
    ensures
        a == b,
{
    assert(u32_bytes(a)[0] == u32_bytes(b)[0] && u32_bytes(a)[1] == u32_bytes(b)[1]
        && u32_bytes(a)[2] == u32_bytes(b)[2] && u32_bytes(a)[3] == u32_bytes(b)[3]);
    assert(a == b) by (bit_vector)
        requires
            (a & 0xff) as u8 == (b & 0xff) as u8,
            ((a >> 8u32) & 0xff) as u8 == ((b >> 8u32) & 0xff) as u8,
            ((a >> 16u32) & 0xff) as u8 == ((b >> 16u32) & 0xff) as u8,
            ((a >> 24u32) & 0xff) as u8 == ((b >> 24u32) & 0xff) as u8;
}

proof fn lemma_u64_bytes_injective(a: u64, b: u64)
    requires
        u64_bytes(a) == u64_bytes(b),
    ensures
        a == b,
{
    let (al, ah, bl, bh) = ((a & 0xffff_ffff) as u32, (a >> 32u64) as u32, (b & 0xffff_ffff) as u32, (b >> 32u64) as u32);
    assert(u32_bytes(al) =~= u64_bytes(a).subrange(0, 4));
    assert(u32_bytes(bl) =~= u64_bytes(b).subrange(0, 4));
    assert(u32_bytes(ah) =~= u64_bytes(a).subrange(4, 8));
    assert(u32_bytes(bh) =~= u64_bytes(b).subrange(4, 8));
    lemma_u32_bytes_injective(al, bl);
    lemma_u32_bytes_injective(ah, bh);
    assert(a == b) by (bit_vector)
        requires
            (a & 0xffff_ffff) as u32 == (b & 0xffff_ffff) as u32,
            (a >> 32u64) as u32 == (b >> 32u64) as u32;
}

fn push_u32_bytes(bytes: &mut Vec<u8>, u: u32)
    ensures
        final(bytes)@ == old(bytes)@ + u32_bytes(u),
{
    bytes.push((u & 0xff) as u8);
    bytes.push(((u >> 8) & 0xff) as u8);
    bytes.push(((u >> 16) & 0xff) as u8);
    bytes.push(((u >> 24) & 0xff) as u8);
    assert(bytes@ =~= old(bytes)@ + u32_bytes(u));
}

fn read_u32_bytes(bytes: &[u8], at: usize) -> (u: u32)
    requires
        at + 4 <= bytes@.len(),
    ensures
        u32_bytes(u) == bytes@.subrange(at as int, at + 4),
{
    let b0 = bytes[at];
    let b1 = bytes[at + 1];
    let b2 = bytes[at + 2];
    let b3 = bytes[at + 3];
    let u: u32 = (b0 as u32) | ((b1 as u32) << 8) | ((b2 as u32) << 16) | ((b3 as u32) << 24);
    assert((u & 0xff) as u8 == b0 && ((u >> 8u32) & 0xff) as u8 == b1 && ((u >> 16u32) & 0xff) as u8
        == b2 && ((u >> 24u32) & 0xff) as u8 == b3) by (bit_vector)
        requires
            u == (b0 as u32) | ((b1 as u32) << 8u32) | ((b2 as u32) << 16u32) | ((b3 as u32) << 24u32);
    assert(u32_bytes(u) =~= bytes@.subrange(at as int, at + 4));
    u
}

fn u64_to_custom_data(tag: u64, u: u64) -> (d: CustomData)
    ensures
        d@ == (CustomDataView { type_tag: tag, bytes: u64_bytes(u) }),
{
    let mut bytes: Vec<u8> = Vec::new();
    push_u32_bytes(&mut bytes, (u & 0xffff_ffff) as u32);
    push_u32_bytes(&mut bytes, (u >> 32) as u32);
    assert(bytes@ =~= u64_bytes(u));
    CustomData { type_tag: tag, bytes }
}

fn u64_from_custom_data(tag: u64, d: &CustomData) -> (r: Option<u64>)
    ensures
        r matches Some(u) ==> d@ == (CustomDataView { type_tag: tag, bytes: u64_bytes(u) }),
        r is None ==> forall|u: u64| d@ != (CustomDataView { type_tag: tag, bytes: #[trigger] u64_bytes(u) }),
{
    if d.type_tag == tag && d.bytes.len() == 8 {
        let lo = read_u32_bytes(d.bytes.as_slice(), 0);
        let hi = read_u32_bytes(d.bytes.as_slice(), 4);
        let u: u64 = (lo as u64) | ((hi as u64) << 32);
        assert((u & 0xffff_ffff) as u32 == lo && (u >> 32u64) as u32 == hi) by (bit_vector)
            requires u == (lo as u64) | ((hi as u64) << 32u64);
        assert(u64_bytes(u) =~= d.bytes@);
        Some(u)
    } else {
        None
    }
}

fn u32_to_custom_data(tag: u64, u: u32) -> (d: CustomData)
    ensures
        d@ == (CustomDataView { type_tag: tag, bytes: u32_bytes(u) }),
{
    let mut bytes: Vec<u8> = Vec::new();
    push_u32_bytes(&mut bytes, u);
    assert(bytes@ =~= u32_bytes(u));
    CustomData { type_tag: tag, bytes }
}

fn u32_from_custom_data(tag: u64, d: &CustomData) -> (r: Option<u32>)
    ensures
        r matches Some(u) ==> d@ == (CustomDataView { type_tag: tag, bytes: u32_bytes(u) }),
        r is None ==> forall|u: u32| d@ != (CustomDataView { type_tag: tag, bytes: #[trigger] u32_bytes(u) }),
{
    if d.type_tag == tag && d.bytes.len() == 4 {
        let u = read_u32_bytes(d.bytes.as_slice(), 0);
        assert(d.bytes@.subrange(0, 4) =~= d.bytes@);
        Some(u)
    } else {
        None
    }
}

impl ValidCustomData for () {
    open spec fn type_tag() -> u64 {
        0
    }

    open spec fn custom_view(&self) -> CustomDataView {
        CustomDataView { type_tag: 0, bytes: Seq::empty() }
    }

    proof fn lemma_custom_view_tag(x: &Self) {
    }

    proof fn lemma_custom_view_injective(x: &Self, y: &Self) {
    }

    fn to_custom_data(&self) -> (d: CustomData) {
        CustomData { type_tag: 0, bytes: Vec::new() }
    }

    fn from_custom_data(d: &CustomData) -> (r: Option<Self>) {
        if d.type_tag == 0 && d.bytes.len() == 0 {
            assert(d@.bytes =~= Seq::<u8>::empty());
            Some(())
        } else {
            None
        }
    }
}

impl ValidCustomData for bool {
    open spec fn type_tag() -> u64 {
        1
    }

    open spec fn custom_view(&self) -> CustomDataView {
        CustomDataView { type_tag: 1, bytes: seq![if *self { 1u8 } else { 0u8 }] }
    }

    proof fn lemma_custom_view_tag(x: &Self) {
    }

    proof fn lemma_custom_view_injective(x: &Self, y: &Self) {
        assert(x.custom_view().bytes[0] == (if *x { 1u8 } else { 0u8 }));
        assert(y.custom_view().bytes[0] == (if *y { 1u8 } else { 0u8 }));
    }

    fn to_custom_data(&self) -> (d: CustomData) {
        let mut bytes: Vec<u8> = Vec::new();
        bytes.push(if *self { 1u8 } else { 0u8 });
        assert(bytes@ =~= seq![if *self { 1u8 } else { 0u8 }]);
        CustomData { type_tag: 1, bytes }
    }

    fn from_custom_data(d: &CustomData) -> (r: Option<Self>) {
        if d.type_tag == 1 && d.bytes.len() == 1 && d.bytes[0] <= 1 {
            let x = d.bytes[0] == 1;
            assert(d.bytes@ =~= seq![if x { 1u8 } else { 0u8 }]);
            Some(x)
        } else {
            assert forall|x: bool| #[trigger] x.custom_view() != d@ by {
                if x.custom_view() == d@ {
                    assert(d.bytes@[0] == x.custom_view().bytes[0]);
                }
            }
            None
        }
    }
}

impl ValidCustomData for i32 {
    open spec fn type_tag() -> u64 {
        2
    }

    open spec fn custom_view(&self) -> CustomDataView {
        CustomDataView { type_tag: 2, bytes: u32_bytes(*self as u32) }
    }

    proof fn lemma_custom_view_tag(x: &Self) {
    }

    proof fn lemma_custom_view_injective(x: &Self, y: &Self) {
        lemma_u32_bytes_injective(*x as u32, *y as u32);
        let (a, b) = (*x, *y);
        assert(a == b) by (bit_vector)
            requires a as u32 == b as u32;
    }

    fn to_custom_data(&self) -> (d: CustomData) {
        u32_to_custom_data(2, *self as u32)
    }

    fn from_custom_data(d: &CustomData) -> (r: Option<Self>) {
        match u32_from_custom_data(2, d) {
            Some(u) => {
                let x = u as i32;
                assert((u as i32) as u32 == u) by (bit_vector);
                proof {
                    assert forall|y: i32| #[trigger] y.custom_view() == d@ implies Some(x) == Some(y) by {
                        Self::lemma_custom_view_injective(&x, &y);
                    }
                }
                Some(x)
            },
            None => {
                assert forall|y: i32| #[trigger] y.custom_view() != d@ by {
                    assert(d@ != (CustomDataView { type_tag: 2, bytes: u32_bytes(y as u32) }));
                }
                None
            },
        }
    }
}

impl ValidCustomData for u32 {
    open spec fn type_tag() -> u64 {
        3
    }

    open spec fn custom_view(&self) -> CustomDataView {
        CustomDataView { type_tag: 3, bytes: u32_bytes(*self) }
    }

    proof fn lemma_custom_view_tag(x: &Self) {
    }

    proof fn lemma_custom_view_injective(x: &Self, y: &Self) {
        lemma_u32_bytes_injective(*x, *y);
    }

    fn to_custom_data(&self) -> (d: CustomData) {
        u32_to_custom_data(3, *self)
    }

    fn from_custom_data(d: &CustomData) -> (r: Option<Self>) {
        let r = u32_from_custom_data(3, d);
        proof {
            if let Some(x) = r {
                assert forall|y: u32| #[trigger] y.custom_view() == d@ implies r == Some(y) by {
                    Self::lemma_custom_view_injective(&x, &y);
                }
            }
        }
        r
    }
}

impl ValidCustomData for i64 {
    open spec fn type_tag() -> u64 {
        4
    }

    open spec fn custom_view(&self) -> CustomDataView {
        CustomDataView { type_tag: 4, bytes: u64_bytes(*self as u64) }
    }

    proof fn lemma_custom_view_tag(x: &Self) {
    }

    proof fn lemma_custom_view_injective(x: &Self, y: &Self) {
        lemma_u64_bytes_injective(*x as u64, *y as u64);
        let (a, b) = (*x, *y);
        assert(a == b) by (bit_vector)
            requires a as u64 == b as u64;
    }

    fn to_custom_data(&self) -> (d: CustomData) {
        u64_to_custom_data(4, *self as u64)
    }

    fn from_custom_data(d: &CustomData) -> (r: Option<Self>) {
        match u64_from_custom_data(4, d) {
            Some(u) => {
                let x = u as i64;
                assert((u as i64) as u64 == u) by (bit_vector);
                proof {
                    assert forall|y: i64| #[trigger] y.custom_view() == d@ implies Some(x) == Some(y) by {
                        Self::lemma_custom_view_injective(&x, &y);
                    }
                }
                Some(x)
            },
            None => {
                assert forall|y: i64| #[trigger] y.custom_view() != d@ by {
                    assert(d@ != (CustomDataView { type_tag: 4, bytes: u64_bytes(y as u64) }));
                }
                None
            },
        }
    }
}

impl ValidCustomData for u64 {
    open spec fn type_tag() -> u64 {
        5
    }

    open spec fn custom_view(&self) -> CustomDataView {
        CustomDataView { type_tag: 5, bytes: u64_bytes(*self) }
    }

    proof fn lemma_custom_view_tag(x: &Self) {
    }

    proof fn lemma_custom_view_injective(x: &Self, y: &Self) {
        lemma_u64_bytes_injective(*x, *y);
    }

    fn to_custom_data(&self) -> (d: CustomData) {
        u64_to_custom_data(5, *self)
    }

    fn from_custom_data(d: &CustomData) -> (r: Option<Self>) {
        let r = u64_from_custom_data(5, d);
        proof {
            if let Some(x) = r {
                assert forall|y: u64| #[trigger] y.custom_view() == d@ implies r == Some(y) by {
                    Self::lemma_custom_view_injective(&x, &y);
                }
            }
        }
        r
    }
}

impl ValidCustomData for u8 {
    open spec fn type_tag() -> u64 {
        6
    }

    open spec fn custom_view(&self) -> CustomDataView {
        CustomDataView { type_tag: 6, bytes: u32_bytes(*self as u32) }
    }

    proof fn lemma_custom_view_tag(x: &Self) {
    }

    proof fn lemma_custom_view_injective(x: &Self, y: &Self) {
        lemma_u32_bytes_injective(*x as u32, *y as u32);
        let (a, b) = (*x, *y);
        assert(a == b) by (bit_vector)
            requires a as u32 == b as u32;
    }

    fn to_custom_data(&self) -> (d: CustomData) {
        u32_to_custom_data(6, *self as u32)
    }

    fn from_custom_data(d: &CustomData) -> (r: Option<Self>) {
        match u32_from_custom_data(6, d) {
            Some(u) => {
                let x = u as u8;
                if x as u32 == u {
                    proof {
                        assert forall|y: u8| #[trigger] y.custom_view() == d@ implies Some(x) == Some(y) by {
                            Self::lemma_custom_view_injective(&x, &y);
                        }
                    }
                    Some(x)
                } else {
                    assert forall|y: u8| #[trigger] y.custom_view() != d@ by {
                        if y.custom_view() == d@ {
                            lemma_u32_bytes_injective(y as u32, u);
                            let yy = y;
                            assert((u as u8) as u32 == u) by (bit_vector)
                                requires yy as u32 == u;
                        }
                    }
                    None
                }
            },
            None => {
                assert forall|y: u8| #[trigger] y.custom_view() != d@ by {
                    assert(d@ != (CustomDataView { type_tag: 6, bytes: u32_bytes(y as u32) }));
                }
                None
            },
        }
    }
}

impl ValidCustomData for u16 {
    open spec fn type_tag() -> u64 {
        7
    }

    open spec fn custom_view(&self) -> CustomDataView {
        CustomDataView { type_tag: 7, bytes: u32_bytes(*self as u32) }
    }

    proof fn lemma_custom_view_tag(x: &Self) {
    }

    proof fn lemma_custom_view_injective(x: &Self, y: &Self) {
        lemma_u32_bytes_injective(*x as u32, *y as u32);
        let (a, b) = (*x, *y);
        assert(a == b) by (bit_vector)
            requires a as u32 == b as u32;
    }

    fn to_custom_data(&self) -> (d: CustomData) {
        u32_to_custom_data(7, *self as u32)
    }

    fn from_custom_data(d: &CustomData) -> (r: Option<Self>) {
        match u32_from_custom_data(7, d) {
            Some(u) => {
                let x = u as u16;
                if x as u32 == u {
                    proof {
                        assert forall|y: u16| #[trigger] y.custom_view() == d@ implies Some(x) == Some(y) by {
                            Self::lemma_custom_view_injective(&x, &y);
                        }
                    }
                    Some(x)
                } else {
                    assert forall|y: u16| #[trigger] y.custom_view() != d@ by {
                        if y.custom_view() == d@ {
                            lemma_u32_bytes_injective(y as u32, u);
                            let yy = y;
                            assert((u as u16) as u32 == u) by (bit_vector)
                                requires yy as u32 == u;
                        }
                    }
                    None
                }
            },
            None => {
                assert forall|y: u16| #[trigger] y.custom_view() != d@ by {
                    assert(d@ != (CustomDataView { type_tag: 7, bytes: u32_bytes(y as u32) }));
                }
                None
            },
        }
    }
}

impl ValidCustomData for i8 {
    open spec fn type_tag() -> u64 {
        8
    }

    open spec fn custom_view(&self) -> CustomDataView {
        CustomDataView { type_tag: 8, bytes: u32_bytes(*self as u32) }
    }

    proof fn lemma_custom_view_tag(x: &Self) {
    }

    proof fn lemma_custom_view_injective(x: &Self, y: &Self) {
        lemma_u32_bytes_injective(*x as u32, *y as u32);
        let (a, b) = (*x, *y);
        assert(a == b) by (bit_vector)
            requires a as u32 == b as u32;
    }

    fn to_custom_data(&self) -> (d: CustomData) {
        u32_to_custom_data(8, *self as u32)
    }

    fn from_custom_data(d: &CustomData) -> (r: Option<Self>) {
        match u32_from_custom_data(8, d) {
            Some(u) => {
                let x = u as i8;
                if x as u32 == u {
                    proof {
                        assert forall|y: i8| #[trigger] y.custom_view() == d@ implies Some(x) == Some(y) by {
                            Self::lemma_custom_view_injective(&x, &y);
                        }
                    }
                    Some(x)
                } else {
                    assert forall|y: i8| #[trigger] y.custom_view() != d@ by {
                        if y.custom_view() == d@ {
                            lemma_u32_bytes_injective(y as u32, u);
                            let yy = y;
                            assert((u as i8) as u32 == u) by (bit_vector)
                                requires yy as u32 == u;
                        }
                    }
                    None
                }
            },
            None => {
                assert forall|y: i8| #[trigger] y.custom_view() != d@ by {
                    assert(d@ != (CustomDataView { type_tag: 8, bytes: u32_bytes(y as u32) }));
                }
                None
            },
        }
    }
}

impl ValidCustomData for i16 {
    open spec fn type_tag() -> u64 {
        9
    }

    open spec fn custom_view(&self) -> CustomDataView {
        CustomDataView { type_tag: 9, bytes: u32_bytes(*self as u32) }
    }

    proof fn lemma_custom_view_tag(x: &Self) {
    }

    proof fn lemma_custom_view_injective(x: &Self, y: &Self) {
        lemma_u32_bytes_injective(*x as u32, *y as u32);
        let (a, b) = (*x, *y);
        assert(a == b) by (bit_vector)
            requires a as u32 == b as u32;
    }

    fn to_custom_data(&self) -> (d: CustomData) {
        u32_to_custom_data(9, *self as u32)
    }

    fn from_custom_data(d: &CustomData) -> (r: Option<Self>) {
        match u32_from_custom_data(9, d) {
            Some(u) => {
                let x = u as i16;
                if x as u32 == u {
                    proof {
                        assert forall|y: i16| #[trigger] y.custom_view() == d@ implies Some(x) == Some(y) by {
                            Self::lemma_custom_view_injective(&x, &y);
                        }
                    }
                    Some(x)
                } else {
                    assert forall|y: i16| #[trigger] y.custom_view() != d@ by {
                        if y.custom_view() == d@ {
                            lemma_u32_bytes_injective(y as u32, u);
                            let yy = y;
                            assert((u as i16) as u32 == u) by (bit_vector)
                                requires yy as u32 == u;
                        }
                    }
                    None
                }
            },
            None => {
                assert forall|y: i16| #[trigger] y.custom_view() != d@ by {
                    assert(d@ != (CustomDataView { type_tag: 9, bytes: u32_bytes(y as u32) }));
                }
                None
            },
        }
    }
}

impl ValidCustomData for usize {
    open spec fn type_tag() -> u64 {
        10
    }

    open spec fn custom_view(&self) -> CustomDataView {
        CustomDataView { type_tag: 10, bytes: u64_bytes(*self as u64) }
    }

    proof fn lemma_custom_view_tag(x: &Self) {
    }

    proof fn lemma_custom_view_injective(x: &Self, y: &Self) {
        lemma_u64_bytes_injective(*x as u64, *y as u64);
        let (a, b) = (*x, *y);
        assert(a == b) by (bit_vector)
            requires a as u64 == b as u64;
    }

    fn to_custom_data(&self) -> (d: CustomData) {
        u64_to_custom_data(10, *self as u64)
    }

    fn from_custom_data(d: &CustomData) -> (r: Option<Self>) {
        match u64_from_custom_data(10, d) {
            Some(u) => {
                let x = u as usize;
                if x as u64 == u {
                    proof {
                        assert forall|y: usize| #[trigger] y.custom_view() == d@ implies Some(x) == Some(y) by {
                            Self::lemma_custom_view_injective(&x, &y);
                        }
                    }
                    Some(x)
                } else {
                    assert forall|y: usize| #[trigger] y.custom_view() != d@ by {
                        if y.custom_view() == d@ {
                            lemma_u64_bytes_injective(y as u64, u);
                            let yy = y;
                            assert((u as usize) as u64 == u) by (bit_vector)
                                requires yy as u64 == u;
                        }
                    }
                    None
                }
            },
            None => {
                assert forall|y: usize| #[trigger] y.custom_view() != d@ by {
                    assert(d@ != (CustomDataView { type_tag: 10, bytes: u64_bytes(y as u64) }));
                }
                None
            },
        }
    }
}

impl ValidCustomData for isize {
    open spec fn type_tag() -> u64 {
        11
    }

    open spec fn custom_view(&self) -> CustomDataView {
        CustomDataView { type_tag: 11, bytes: u64_bytes(*self as u64) }
    }

    proof fn lemma_custom_view_tag(x: &Self) {
    }

    proof fn lemma_custom_view_injective(x: &Self, y: &Self) {
        lemma_u64_bytes_injective(*x as u64, *y as u64);
        let (a, b) = (*x, *y);
        assert(a == b) by (bit_vector)
            requires a as u64 == b as u64;
    }

    fn to_custom_data(&self) -> (d: CustomData) {
        u64_to_custom_data(11, *self as u64)
    }

    fn from_custom_data(d: &CustomData) -> (r: Option<Self>) {
        match u64_from_custom_data(11, d) {
            Some(u) => {
                let x = u as isize;
                if x as u64 == u {
                    proof {
                        assert forall|y: isize| #[trigger] y.custom_view() == d@ implies Some(x) == Some(y) by {
                            Self::lemma_custom_view_injective(&x, &y);
                        }
                    }
                    Some(x)
                } else {
                    assert forall|y: isize| #[trigger] y.custom_view() != d@ by {
                        if y.custom_view() == d@ {
                            lemma_u64_bytes_injective(y as u64, u);
                            let yy = y;
                            assert((u as isize) as u64 == u) by (bit_vector)
                                requires yy as u64 == u;
                        }
                    }
                    None
                }
            },
            None => {
                assert forall|y: isize| #[trigger] y.custom_view() != d@ by {
                    assert(d@ != (CustomDataView { type_tag: 11, bytes: u64_bytes(y as u64) }));
                }
                None
            },
        }
    }
}

/// Values of types with different tags have different plain forms, so
/// nodes built with them are different nodes.
pub proof fn lemma_other_type_other_data<T: ValidCustomData, U: ValidCustomData>(x: &T, y: &U)
    requires
        T::type_tag() != U::type_tag(),
    ensures
        x.custom_view() != y.custom_view(),
{
    T::lemma_custom_view_tag(x);
    U::lemma_custom_view_tag(y);
}

/// The tags of the types that can be attached to a node: all different.
pub proof fn lemma_type_tags()
    ensures
        <() as ValidCustomData>::type_tag() == 0,
        <bool as ValidCustomData>::type_tag() == 1,
        <i32 as ValidCustomData>::type_tag() == 2,
        <u32 as ValidCustomData>::type_tag() == 3,
        <i64 as ValidCustomData>::type_tag() == 4,
        <u64 as ValidCustomData>::type_tag() == 5,
        <u8 as ValidCustomData>::type_tag() == 6,
        <u16 as ValidCustomData>::type_tag() == 7,
        <i8 as ValidCustomData>::type_tag() == 8,
        <i16 as ValidCustomData>::type_tag() == 9,
        <usize as ValidCustomData>::type_tag() == 10,
        <isize as ValidCustomData>::type_tag() == 11,
{
}

/// Refers to a node of a [`NodeHeap`].
#[derive(Clone, Copy, PartialEq, Eq, Structural, Debug)]
pub struct NodeHandle(usize);

impl View for NodeHandle {
    type V = int;

    closed spec fn view(&self) -> int {
        self.0 as int
    }
}

impl NodeHandle {
    /// The position of the node in its heap.
    pub fn index(&self) -> (i: usize)
        ensures
            i == self@,
    {
        self.0
    }
}

/// Abstract form of a node: its search bookkeeping and what identifies it.
pub struct NodeView {
    pub best_cost: u32,
    pub visited: bool,
    pub layer_id: Seq<u8>,
    pub rng: Option<RngState>,
    pub custom_data: CustomDataView,
}

/// What tells nodes apart: the layer, what the generator will draw (not how
/// often it has drawn), and the custom data.
pub struct NodeIdentity {
    pub layer_id: Seq<u8>,
    pub stream: Option<RngState>,
    pub custom_data: CustomDataView,
}

/// The generator state with its draw counter set aside.
pub open spec fn stream_of(rng: Option<RngState>) -> Option<RngState> {
    match rng {
        Some(r) => Some(RngState { num_calls: 0, ..r }),
        None => None,
    }
}

/// The identity of a node built from these parts.
pub open spec fn identity_of(layer_id: Seq<u8>, rng: Option<RngState>, custom_data: CustomDataView) -> NodeIdentity {
    NodeIdentity { layer_id, stream: stream_of(rng), custom_data }
}

impl NodeView {
    pub open spec fn identity(self) -> NodeIdentity {
        identity_of(self.layer_id, self.rng, self.custom_data)
    }
}

/// What one call that changes a heap does to it.
pub enum HeapOp {
    /// `get_or_construct_node` or `get_or_construct_node_with_custom_data`.
    Construct { layer_id: Seq<u8>, rng: Option<RngState>, custom_data: CustomDataView },
    /// `mark_visited`.
    MarkVisited { node: int },
    /// `update_best_cost`.
    UpdateBestCost { node: int, cost: u32 },
}

/// The nodes after one call, as the calls' contracts state it.
pub open spec fn apply_op(nodes: Seq<NodeView>, op: HeapOp) -> Seq<NodeView> {
    match op {
        HeapOp::Construct { layer_id, rng, custom_data } => if has_identity(
            nodes,
            identity_of(layer_id, rng, custom_data),
        ) {
            nodes
        } else {
            nodes.push(fresh_node(layer_id, rng, custom_data))
        },
        HeapOp::MarkVisited { node } => if 0 <= node < nodes.len() {
            nodes.update(node, NodeView { visited: true, ..nodes[node] })
        } else {
            nodes
        },
        HeapOp::UpdateBestCost { node, cost } => if 0 <= node < nodes.len() {
            nodes.update(node, NodeView { best_cost: cost, ..nodes[node] })
        } else {
            nodes
        },
    }
}

/// One call keeps the nodes there were, with their identities, and adds at
/// most one.
proof fn lemma_apply_op(nodes: Seq<NodeView>, op: HeapOp)
    ensures
        nodes.len() <= apply_op(nodes, op).len() <= nodes.len() + 1,
        op !is Construct ==> apply_op(nodes, op).len() == nodes.len(),
        forall|h: int| 0 <= h < nodes.len() ==> #[trigger] apply_op(nodes, op)[h].identity() == nodes[h].identity(),
        forall|h: int|
            0 <= h < nodes.len() ==> {
                &&& (#[trigger] apply_op(nodes, op)[h]).layer_id == nodes[h].layer_id
                &&& apply_op(nodes, op)[h].rng == nodes[h].rng
                &&& apply_op(nodes, op)[h].custom_data == nodes[h].custom_data
            },
        forall|h: int|
            0 <= h < nodes.len() && op != (HeapOp::MarkVisited { node: h }) ==> #[trigger] apply_op(nodes, op)[h].visited
                == nodes[h].visited,
        forall|h: int|
            0 <= h < nodes.len() && !(op matches HeapOp::UpdateBestCost { node, .. } && node == h)
                ==> #[trigger] apply_op(nodes, op)[h].best_cost == nodes[h].best_cost,
        apply_op(nodes, op).len() > nodes.len() ==> apply_op(nodes, op).last() == (match op {
            HeapOp::Construct { layer_id, rng, custom_data } => fresh_node(layer_id, rng, custom_data),
            _ => nodes[0],
        }),
{
}

/// The nodes after a series of calls.
pub open spec fn apply_ops(nodes: Seq<NodeView>, ops: Seq<HeapOp>) -> Seq<NodeView>
    decreases ops.len(),
{
    if ops.len() == 0 {
        nodes
    } else {
        apply_op(apply_ops(nodes, ops.drop_last()), ops.last())
    }
}

/// Every call of a series refers to a node that exists when it is made, as
/// the calls require.
pub open spec fn ops_valid(nodes: Seq<NodeView>, ops: Seq<HeapOp>) -> bool {
    forall|i: int|
        0 <= i < ops.len() ==> match #[trigger] ops[i] {
            HeapOp::Construct { .. } => true,
            HeapOp::MarkVisited { node } => 0 <= node < apply_ops(nodes, ops.take(i)).len(),
            HeapOp::UpdateBestCost { node, .. } => 0 <= node < apply_ops(nodes, ops.take(i)).len(),
        }
}

/// The cost that the last `update_best_cost` of `node` in a series recorded.
pub open spec fn last_recorded_cost(ops: Seq<HeapOp>, node: int) -> Option<u32>
    decreases ops.len(),
{
    if ops.len() == 0 {
        None
    } else {
        match ops.last() {
            HeapOp::UpdateBestCost { node: n, cost } if n == node => Some(cost),
            _ => last_recorded_cost(ops.drop_last(), node),
        }
    }
}

proof fn lemma_ops_valid_prefix(nodes: Seq<NodeView>, ops: Seq<HeapOp>)
    requires
        ops.len() > 0,
        ops_valid(nodes, ops),
    ensures
        ops_valid(nodes, ops.drop_last()),
{
    assert forall|i: int| 0 <= i < ops.drop_last().len() implies match #[trigger] ops.drop_last()[i] {
        HeapOp::Construct { .. } => true,
        HeapOp::MarkVisited { node } => 0 <= node < apply_ops(nodes, ops.drop_last().take(i)).len(),
        HeapOp::UpdateBestCost { node, .. } => 0 <= node < apply_ops(nodes, ops.drop_last().take(i)).len(),
    } by {
        assert(ops.drop_last().take(i) =~= ops.take(i));
        assert(ops[i] == ops.drop_last()[i]);
    }
}

/// Over a series of calls, nodes are only added, never removed, and each
/// keeps its identity, its layer, its generator (draw counter included) and
/// its custom data: `get_rng` on a node gives back, every time, the
/// generator it was built with.
pub proof fn lemma_nodes_persist(nodes: Seq<NodeView>, ops: Seq<HeapOp>, h: int)
    requires
        0 <= h < nodes.len(),
    ensures
        h < apply_ops(nodes, ops).len(),
        apply_ops(nodes, ops)[h].identity() == nodes[h].identity(),
        apply_ops(nodes, ops)[h].layer_id == nodes[h].layer_id,
        apply_ops(nodes, ops)[h].rng == nodes[h].rng,
        apply_ops(nodes, ops)[h].custom_data == nodes[h].custom_data,
    decreases ops.len(),
{
    if ops.len() > 0 {
        lemma_nodes_persist(nodes, ops.drop_last(), h);
        lemma_apply_op(apply_ops(nodes, ops.drop_last()), ops.last());
    }
}

/// `mark_visited` is called on `node` somewhere in a series.
pub open spec fn marked(ops: Seq<HeapOp>, node: int) -> bool
    decreases ops.len(),
{
    ops.len() > 0 && (ops.last() == (HeapOp::MarkVisited { node }) || marked(ops.drop_last(), node))
}

/// A node is visited exactly when it was visited to begin with or
/// `mark_visited` was called on it: new nodes are unvisited and nothing
/// clears the flag.
pub proof fn lemma_visited_history(nodes: Seq<NodeView>, ops: Seq<HeapOp>, h: int)
    requires
        ops_valid(nodes, ops),
        0 <= h < apply_ops(nodes, ops).len(),
    ensures
        apply_ops(nodes, ops)[h].visited == ((h < nodes.len() && nodes[h].visited) || marked(ops, h)),
    decreases ops.len(),
{
    if ops.len() > 0 {
        let before = apply_ops(nodes, ops.drop_last());
        lemma_ops_valid_prefix(nodes, ops);
        assert(ops.take(ops.len() - 1) =~= ops.drop_last());
        assert(ops[ops.len() - 1] == ops.last());
        lemma_apply_op(before, ops.last());
        if h < before.len() {
            lemma_visited_history(nodes, ops.drop_last(), h);
        } else {
            lemma_not_marked_before_built(nodes, ops.drop_last(), h);
            lemma_nodes_len(nodes, ops.drop_last());
        }
    }
}

proof fn lemma_nodes_len(nodes: Seq<NodeView>, ops: Seq<HeapOp>)
    ensures
        nodes.len() <= apply_ops(nodes, ops).len(),
    decreases ops.len(),
{
    if ops.len() > 0 {
        lemma_nodes_len(nodes, ops.drop_last());
        lemma_apply_op(apply_ops(nodes, ops.drop_last()), ops.last());
    }
}

proof fn lemma_not_marked_before_built(nodes: Seq<NodeView>, ops: Seq<HeapOp>, h: int)
    requires
        ops_valid(nodes, ops),
        h >= apply_ops(nodes, ops).len(),
    ensures
        !marked(ops, h),
    decreases ops.len(),
{
    if ops.len() > 0 {
        lemma_ops_valid_prefix(nodes, ops);
        assert(ops.take(ops.len() - 1) =~= ops.drop_last());
        assert(ops[ops.len() - 1] == ops.last());
        lemma_apply_op(apply_ops(nodes, ops.drop_last()), ops.last());
        lemma_not_marked_before_built(nodes, ops.drop_last(), h);
    }
}

/// A node's recorded cost is the one the last `update_best_cost` on it
/// recorded, or what it had to begin with, which for a new node is
/// `u32::MAX`.
pub proof fn lemma_best_cost_history(nodes: Seq<NodeView>, ops: Seq<HeapOp>, h: int)
    requires
        ops_valid(nodes, ops),
        0 <= h < apply_ops(nodes, ops).len(),
    ensures
        apply_ops(nodes, ops)[h].best_cost == match last_recorded_cost(ops, h) {
            Some(c) => c,
            None => if h < nodes.len() {
                nodes[h].best_cost
            } else {
                u32::MAX
            },
        },
    decreases ops.len(),
{
    if ops.len() > 0 {
        let before = apply_ops(nodes, ops.drop_last());
        lemma_ops_valid_prefix(nodes, ops);
        assert(ops.take(ops.len() - 1) =~= ops.drop_last());
        assert(ops[ops.len() - 1] == ops.last());
        lemma_apply_op(before, ops.last());
        if h < before.len() {
            lemma_best_cost_history(nodes, ops.drop_last(), h);
        } else {
            lemma_no_cost_before_built(nodes, ops.drop_last(), h);
            lemma_nodes_len(nodes, ops.drop_last());
        }
    }
}

proof fn lemma_no_cost_before_built(nodes: Seq<NodeView>, ops: Seq<HeapOp>, h: int)
    requires
        ops_valid(nodes, ops),
        h >= apply_ops(nodes, ops).len(),
    ensures
        last_recorded_cost(ops, h) is None,
    decreases ops.len(),
{
    if ops.len() > 0 {
        lemma_ops_valid_prefix(nodes, ops);
        assert(ops.take(ops.len() - 1) =~= ops.drop_last());
        assert(ops[ops.len() - 1] == ops.last());
        lemma_apply_op(apply_ops(nodes, ops.drop_last()), ops.last());
        lemma_no_cost_before_built(nodes, ops.drop_last(), h);
    }
}

/// The abstract form of an optional generator.
pub open spec fn rng_view(rng: Option<RNG>) -> Option<RngState> {
    match rng {
        Some(r) => Some(r@),
        None => None,
    }
}

/// The generator invariant holds where there is a generator.
pub open spec fn rng_wf(rng: Option<RNG>) -> bool {
    match rng {
        Some(r) => r.wf(),
        None => true,
    }
}

/// The bucket of the heap's index that a node with this generator goes in.
pub open spec fn bucket_of(rng: Option<RngState>) -> u64 {
    match rng {
        Some(r) => r.fingerprint(),
        None => 0,
    }
}

/// The parts of a node that identify it.
struct NodeKey {
    layer_id: &'static str,
    rng: Option<RNG>,
    custom_data: CustomData,
}

/// Every node reached by the search, each identified by a layer, a generator
/// state and custom data, with the search's bookkeeping for it. No two nodes
/// share an identity.
pub struct NodeHeap {
    keys: Vec<NodeKey>,
    best_costs: Vec<u32>,
    visited: Vec<bool>,
    index: HashMap<u64, Vec<usize>>,
}

impl View for NodeHeap {
    type V = Seq<NodeView>;

    closed spec fn view(&self) -> Seq<NodeView> {
        Seq::new(
            self.keys@.len(),
            |i: int|
                NodeView {
                    best_cost: self.best_costs@[i],
                    visited: self.visited@[i],
                    layer_id: self.keys@[i].layer_id.spec_bytes(),
                    rng: rng_view(self.keys@[i].rng),
                    custom_data: self.keys@[i].custom_data@,
                },
        )
    }
}

/// No two nodes share an identity.
pub open spec fn identities_distinct(nodes: Seq<NodeView>) -> bool {
    forall|i: int, j: int|
        0 <= i < nodes.len() && 0 <= j < nodes.len() && i != j ==> #[trigger] nodes[i].identity()
            != #[trigger] nodes[j].identity()
}

/// Whether some node has this identity.
pub open spec fn has_identity(nodes: Seq<NodeView>, id: NodeIdentity) -> bool {
    exists|i: int| 0 <= i < nodes.len() && #[trigger] nodes[i].identity() == id
}

/// A node that was just built: not visited, no cost known.
pub open spec fn fresh_node(layer_id: Seq<u8>, rng: Option<RngState>, custom_data: CustomDataView) -> NodeView {
    NodeView { best_cost: u32::MAX, visited: false, layer_id, rng, custom_data }
}

fn bytes_equal(a: &[u8], b: &[u8]) -> (r: bool)
    ensures
        r == (a@ == b@),
{
    if a.len() != b.len() {
        return false;
    }
    let mut i: usize = 0;
    while i < a.len()
        invariant
            a@.len() == b@.len(),
            i <= a@.len(),
            forall|j: int| 0 <= j < i ==> a@[j] == b@[j],
        decreases a@.len() - i,
    {
        if a[i] != b[i] {
            return false;
        }
        i += 1;
    }
    assert(a@ =~= b@);
    true
}

fn rngs_equal(a: &Option<RNG>, b: &Option<RNG>) -> (r: bool)
    ensures
        r == (stream_of(rng_view(*a)) == stream_of(rng_view(*b))),
{
    match (a, b) {
        (Some(x), Some(y)) => {
            let r = x.same_stream(y);
            assert(r ==> stream_of(rng_view(*a)) == stream_of(rng_view(*b)));
            r
        },
        (None, None) => true,
        _ => false,
    }
}

fn bucket_for(rng: &Option<RNG>) -> (h: u64)
    requires
        rng_wf(*rng),
    ensures
        h == bucket_of(rng_view(*rng)),
{
    match rng {
        Some(r) => r.fingerprint(),
        None => 0,
    }
}

impl NodeKey {
    spec fn identity(&self) -> NodeIdentity {
        identity_of(self.layer_id.spec_bytes(), rng_view(self.rng), self.custom_data@)
    }

    fn matches(&self, layer_id: &str, rng: &Option<RNG>, custom_data: &CustomData) -> (r: bool)
        ensures
            r == (self.identity() == identity_of(layer_id.spec_bytes(), rng_view(*rng), custom_data@)),
    {
        bytes_equal(self.layer_id.as_bytes(), layer_id.as_bytes()) && rngs_equal(&self.rng, rng)
            && self.custom_data.type_tag == custom_data.type_tag && bytes_equal(
            self.custom_data.bytes.as_slice(),
            custom_data.bytes.as_slice(),
        )
    }
}

impl NodeHeap {
    /// The heap's invariant: its vectors agree in length, its index lists
    /// every node under the bucket of its generator and nothing else, and no
    /// two nodes share an identity.
    pub closed spec fn wf(&self) -> bool {
        &&& self.best_costs@.len() == self.keys@.len()
        &&& self.visited@.len() == self.keys@.len()
        &&& forall|i: int| 0 <= i < self.keys@.len() ==> #[trigger] rng_wf(self.keys@[i].rng)
        &&& forall|i: int|
            0 <= i < self.keys@.len() ==> {
                let h = bucket_of(rng_view(#[trigger] self.keys@[i].rng));
                &&& self.index@.contains_key(h)
                &&& self.index@[h]@.contains(i as usize)
            }
        &&& forall|h: u64, j: int|
            #![trigger self.index@[h]@[j]]
            self.index@.contains_key(h) && 0 <= j < self.index@[h]@.len() ==> {
                let i = self.index@[h]@[j] as int;
                &&& i < self.keys@.len()
                &&& bucket_of(rng_view(self.keys@[i].rng)) == h
            }
        &&& identities_distinct(self@)
    }

    /// An empty heap.
    pub fn new() -> (heap: NodeHeap)
        ensures
            heap.wf(),
            heap@ == Seq::<NodeView>::empty(),
    {
        let heap = NodeHeap { keys: Vec::new(), best_costs: Vec::new(), visited: Vec::new(), index: HashMap::new() };
        assert(heap@ =~= Seq::<NodeView>::empty());
        heap
    }

    /// How many nodes the heap holds.
    pub fn len(&self) -> (n: usize)
        ensures
            n == self@.len(),
    {
        self.keys.len()
    }

    /// The handle of the node with this identity; a new node, not visited and
    /// with no cost known, when there is none yet.
    fn get_or_construct(&mut self, layer_id: &'static str, rng: Option<RNG>, custom_data: CustomData) -> (handle: NodeHandle)
        requires
            old(self).wf(),
            rng_wf(rng),
        ensures
            final(self).wf(),
            0 <= handle@ < final(self)@.len(),
            final(self)@[handle@].identity() == identity_of(layer_id.spec_bytes(), rng_view(rng), custom_data@),
            has_identity(old(self)@, identity_of(layer_id.spec_bytes(), rng_view(rng), custom_data@)) ==> final(self)@
                == old(self)@,
            !has_identity(old(self)@, identity_of(layer_id.spec_bytes(), rng_view(rng), custom_data@)) ==> final(self)@ == old(self)@.push(fresh_node(layer_id.spec_bytes(), rng_view(rng), custom_data@)),
    {
        broadcast use vstd::std_specs::hash::group_hash_axioms;

        let ghost query = identity_of(layer_id.spec_bytes(), rng_view(rng), custom_data@);
        let count = self.keys.len();
        let h = bucket_for(&rng);
        match self.index.get(&h) {
            Some(bucket) => {
                let mut j: usize = 0;
                while j < bucket.len()
                    invariant
                        self.wf(),
                        j <= bucket@.len(),
                        count == self.keys@.len(),
                        query == identity_of(layer_id.spec_bytes(), rng_view(rng), custom_data@),
                        h == bucket_of(rng_view(rng)),
                        self.index@.contains_key(h),
                        *bucket == self.index@[h],
                        forall|k: int| 0 <= k < j ==> self@[bucket@[k] as int].identity() != query,
                    decreases bucket@.len() - j,
                {
                    let id = bucket[j];
                    assert(self.index@[h]@[j as int] == id);
                    assert(self@[id as int].identity() == self.keys@[id as int].identity());
                    if self.keys[id].matches(layer_id, &rng, &custom_data) {
                        assert(self@[id as int].identity() == query);
                        return NodeHandle(id);
                    }
                    j += 1;
                }
                assert(!has_identity(self@, query)) by {
                    if has_identity(self@, query) {
                        let i = choose|i: int| 0 <= i < self@.len() && #[trigger] self@[i].identity() == query;
                        assert(bucket_of(rng_view(self.keys@[i].rng)) == h);
                        let k = choose|k: int| 0 <= k < bucket@.len() && bucket@[k] == i as usize;
                        assert(self@[bucket@[k] as int].identity() != query);
                    }
                }
            },
            None => {
                assert(!has_identity(self@, query)) by {
                    if has_identity(self@, query) {
                        let i = choose|i: int| 0 <= i < self@.len() && #[trigger] self@[i].identity() == query;
                        assert(bucket_of(rng_view(self.keys@[i].rng)) == h);
                    }
                }
            },
        }
        let ghost old_view = self@;
        let id = self.keys.len();
        self.keys.push(NodeKey { layer_id, rng, custom_data });
        self.best_costs.push(u32::MAX);
        self.visited.push(false);
        let ghost old_index = self.index@;
        match self.index.remove(&h) {
            Some(mut bucket) => {
                bucket.push(id);
                self.index.insert(h, bucket);
            },
            None => {
                let mut bucket: Vec<usize> = Vec::new();
                bucket.push(id);
                self.index.insert(h, bucket);
            },
        }
        proof {
            assert(self@ =~= old_view.push(fresh_node(layer_id.spec_bytes(), rng_view(rng), custom_data@)));
            assert forall|i: int| 0 <= i < self.keys@.len() implies {
                let hi = bucket_of(rng_view(#[trigger] self.keys@[i].rng));
                &&& self.index@.contains_key(hi)
                &&& self.index@[hi]@.contains(i as usize)
            } by {
                let hi = bucket_of(rng_view(self.keys@[i].rng));
                if i < id {
                    if hi == h {
                        let k = choose|k: int| 0 <= k < old_index[h]@.len() && old_index[h]@[k] == i as usize;
                        assert(self.index@[h]@[k] == i as usize);
                    } else {
                        assert(self.index@[hi] == old_index[hi]);
                    }
                } else {
                    assert(self.index@[h]@[self.index@[h]@.len() - 1] == id);
                }
            }
            assert forall|hh: u64, j: int|
                #![trigger self.index@[hh]@[j]]
                self.index@.contains_key(hh) && 0 <= j < self.index@[hh]@.len() implies {
                    let i = self.index@[hh]@[j] as int;
                    &&& i < self.keys@.len()
                    &&& bucket_of(rng_view(self.keys@[i].rng)) == hh
                } by {
                if hh == h {
                    if j < self.index@[h]@.len() - 1 {
                        assert(self.index@[h]@[j] == old_index[h]@[j]);
                    }
                } else {
                    assert(self.index@[hh] == old_index[hh]);
                }
            }
            assert forall|i: int, j: int|
                0 <= i < self@.len() && 0 <= j < self@.len() && i != j implies #[trigger] self@[i].identity()
                    != #[trigger] self@[j].identity() by {
                if i < id && j < id {
                    assert(old_view[i].identity() != old_view[j].identity());
                } else if i < id {
                    assert(old_view[i] == self@[i]);
                } else {
                    assert(old_view[j] == self@[j]);
                }
            }
        }
        NodeHandle(id)
    }

    /// The handle of the node of this layer and generator state, with no
    /// custom data; a new node when there is none yet.
    pub fn get_or_construct_node(&mut self, layer_id: &'static str, rng: Option<RNG>) -> (handle: NodeHandle)
        requires
            old(self).wf(),
            rng_wf(rng),
        ensures
            final(self).wf(),
            0 <= handle@ < final(self)@.len(),
            final(self)@[handle@].identity() == identity_of(layer_id.spec_bytes(), rng_view(rng), ().custom_view()),
            has_identity(old(self)@, identity_of(layer_id.spec_bytes(), rng_view(rng), ().custom_view())) ==> final(self)@
                == old(self)@,
            !has_identity(old(self)@, identity_of(layer_id.spec_bytes(), rng_view(rng), ().custom_view())) ==> final(self)@ == old(self)@.push(fresh_node(layer_id.spec_bytes(), rng_view(rng), ().custom_view())),
            final(self)@ == apply_op(
                old(self)@,
                HeapOp::Construct { layer_id: layer_id.spec_bytes(), rng: rng_view(rng), custom_data: ().custom_view() },
            ),
    {
        let custom_data = ().to_custom_data();
        self.get_or_construct(layer_id, rng, custom_data)
    }

    /// The handle of the node of this layer, generator state and custom data;
    /// a new node when there is none yet.
    pub fn get_or_construct_node_with_custom_data<T: ValidCustomData>(
        &mut self,
        layer_id: &'static str,
        rng: Option<RNG>,
        custom_data: T,
    ) -> (handle: NodeHandle)
        requires
            old(self).wf(),
            rng_wf(rng),
        ensures
            final(self).wf(),
            0 <= handle@ < final(self)@.len(),
            final(self)@[handle@].identity() == identity_of(layer_id.spec_bytes(), rng_view(rng), custom_data.custom_view()),
            has_identity(old(self)@, identity_of(layer_id.spec_bytes(), rng_view(rng), custom_data.custom_view()))
                ==> final(self)@ == old(self)@,
            !has_identity(old(self)@, identity_of(layer_id.spec_bytes(), rng_view(rng), custom_data.custom_view()))
                ==> final(self)@ == old(self)@.push(
                fresh_node(layer_id.spec_bytes(), rng_view(rng), custom_data.custom_view()),
            ),
            final(self)@ == apply_op(
                old(self)@,
                HeapOp::Construct { layer_id: layer_id.spec_bytes(), rng: rng_view(rng), custom_data: custom_data.custom_view() },
            ),
    {
        let data = custom_data.to_custom_data();
        self.get_or_construct(layer_id, rng, data)
    }

    /// Marks a node visited.
    pub fn mark_visited(&mut self, node: NodeHandle)
        requires
            old(self).wf(),
            0 <= node@ < old(self)@.len(),
        ensures
            final(self).wf(),
            final(self)@ == old(self)@.update(node@, NodeView { visited: true, ..old(self)@[node@] }),
            final(self)@ == apply_op(old(self)@, HeapOp::MarkVisited { node: node@ }),
    {
        self.visited.set(node.0, true);
        proof {
            assert(self@ =~= old(self)@.update(node@, NodeView { visited: true, ..old(self)@[node@] }));
            assert forall|i: int, j: int|
                0 <= i < self@.len() && 0 <= j < self@.len() && i != j implies #[trigger] self@[i].identity()
                    != #[trigger] self@[j].identity() by {
                assert(self@[i].identity() == old(self)@[i].identity());
                assert(self@[j].identity() == old(self)@[j].identity());
            }
        }
    }

    /// The lowest cost recorded for a node.
    pub fn best_cost(&self, node: NodeHandle) -> (cost: u32)
        requires
            self.wf(),
            0 <= node@ < self@.len(),
        ensures
            cost == self@[node@].best_cost,
    {
        self.best_costs[node.0]
    }

    /// Records a cost for a node.
    pub fn update_best_cost(&mut self, node: NodeHandle, new_best: u32)
        requires
            old(self).wf(),
            0 <= node@ < old(self)@.len(),
        ensures
            final(self).wf(),
            final(self)@ == old(self)@.update(node@, NodeView { best_cost: new_best, ..old(self)@[node@] }),
            final(self)@ == apply_op(old(self)@, HeapOp::UpdateBestCost { node: node@, cost: new_best }),
    {
        self.best_costs.set(node.0, new_best);
        proof {
            assert(self@ =~= old(self)@.update(node@, NodeView { best_cost: new_best, ..old(self)@[node@] }));
            assert forall|i: int, j: int|
                0 <= i < self@.len() && 0 <= j < self@.len() && i != j implies #[trigger] self@[i].identity()
                    != #[trigger] self@[j].identity() by {
                assert(self@[i].identity() == old(self)@[i].identity());
                assert(self@[j].identity() == old(self)@[j].identity());
            }
        }
    }

    /// The generator state of a node, as it was when the node was built.
    pub fn get_rng(&self, node: NodeHandle) -> (rng: Option<RNG>)
        requires
            self.wf(),
            0 <= node@ < self@.len(),
        ensures
            rng_view(rng) == self@[node@].rng,
            rng_wf(rng),
    {
        self.keys[node.0].rng
    }

    /// Whether a node has been visited.
    pub fn is_visited(&self, node: NodeHandle) -> (visited: bool)
        requires
            self.wf(),
            0 <= node@ < self@.len(),
        ensures
            visited == self@[node@].visited,
    {
        self.visited[node.0]
    }

    /// The custom data of a node read as a `T`: the `T` it was built with,
    /// or `None` when it was built with data of another type.
    pub fn get_custom_data<T: ValidCustomData>(&self, node: NodeHandle) -> (data: Option<T>)
        requires
            self.wf(),
            0 <= node@ < self@.len(),
        ensures
            forall|x: T| #[trigger] x.custom_view() == self@[node@].custom_data ==> data == Some(x),
            data is None ==> forall|x: T| #[trigger] x.custom_view() != self@[node@].custom_data,
            data matches Some(x) ==> x.custom_view() == self@[node@].custom_data,
            self@[node@].custom_data.type_tag != T::type_tag() ==> data is None,
    {
        let data = T::from_custom_data(&self.keys[node.0].custom_data);
        proof {
            if data is Some {
                T::lemma_custom_view_tag(&data->0);
            }
        }
        data
    }

    /// A heap holds one node per identity: two handles of its nodes are
    /// equal exactly when their nodes have the same identity. So building a
    /// node a second time gives back the node built the first time.
    pub proof fn lemma_one_node_per_identity(&self, a: NodeHandle, b: NodeHandle)
        requires
            self.wf(),
            0 <= a@ < self@.len(),
            0 <= b@ < self@.len(),
        ensures
            (a == b) == (self@[a@].identity() == self@[b@].identity()),
    {
        if a@ != b@ {
            assert(self@[a@].identity() != self@[b@].identity());
        }
    }

    /// Building a node again for an identity that was built before returns
    /// the same handle and leaves the heap as it was: given what the first
    /// call ensures (`first` has the identity in `self`) and what the second
    /// ensures (`second` has it in `after`, which equals `self` when `self`
    /// already had it).
    pub proof fn lemma_construct_twice(&self, after: &NodeHeap, first: NodeHandle, second: NodeHandle, id: NodeIdentity)
        requires
            self.wf(),
            after.wf(),
            0 <= first@ < self@.len(),
            self@[first@].identity() == id,
            0 <= second@ < after@.len(),
            after@[second@].identity() == id,
            has_identity(self@, id) ==> after@ == self@,
        ensures
            after@ == self@,
            first == second,
    {
        assert(self@[first@].identity() == id);
        after.lemma_one_node_per_identity(first, second);
    }
}

impl Default for NodeHeap {
    fn default() -> (heap: NodeHeap)
        ensures
            heap.wf(),
            heap@ == Seq::<NodeView>::empty(),
    {
        NodeHeap::new()
    }
}

} // verus!
