//! Example token and pool addresses.

use crate::address::Address;
use std::collections::HashMap;
use vstd::prelude::*;

verus! {

/// The bytes of the weth address, 0xc02aaa39b223fe8d0a0e5c4f27ead9083c756cc2.
pub open spec fn weth_bytes() -> Seq<u8> {
    seq![0xc0u8, 0x2au8, 0xaau8, 0x39u8, 0xb2u8, 0x23u8, 0xfeu8, 0x8du8, 0x0au8, 0x0eu8, 0x5cu8, 0x4fu8, 0x27u8, 0xeau8, 0xd9u8, 0x08u8, 0x3cu8, 0x75u8, 0x6cu8, 0xc2u8]
}

fn weth_vec() -> (v: Vec<u8>)
    ensures
        v@ == weth_bytes(),
{
    let mut v: Vec<u8> = Vec::new();
    v.push(0xc0);
    v.push(0x2a);
    v.push(0xaa);
    v.push(0x39);
    v.push(0xb2);
    v.push(0x23);
    v.push(0xfe);
    v.push(0x8d);
    v.push(0x0a);
    v.push(0x0e);
    v.push(0x5c);
    v.push(0x4f);
    v.push(0x27);
    v.push(0xea);
    v.push(0xd9);
    v.push(0x08);
    v.push(0x3c);
    v.push(0x75);
    v.push(0x6c);
    v.push(0xc2);
    proof {
        assert(v@ =~= weth_bytes());
    }
    v
}

/// The bytes of the usdt address, 0xdac17f958d2ee523a2206206994597c13d831ec7.
pub open spec fn usdt_bytes() -> Seq<u8> {
    seq![0xdau8, 0xc1u8, 0x7fu8, 0x95u8, 0x8du8, 0x2eu8, 0xe5u8, 0x23u8, 0xa2u8, 0x20u8, 0x62u8, 0x06u8, 0x99u8, 0x45u8, 0x97u8, 0xc1u8, 0x3du8, 0x83u8, 0x1eu8, 0xc7u8]
}

fn usdt_vec() -> (v: Vec<u8>)
    ensures
        v@ == usdt_bytes(),
{
    let mut v: Vec<u8> = Vec::new();
    v.push(0xda);
    v.push(0xc1);
    v.push(0x7f);
    v.push(0x95);
    v.push(0x8d);
    v.push(0x2e);
    v.push(0xe5);
    v.push(0x23);
    v.push(0xa2);
    v.push(0x20);
    v.push(0x62);
    v.push(0x06);
    v.push(0x99);
    v.push(0x45);
    v.push(0x97);
    v.push(0xc1);
    v.push(0x3d);
    v.push(0x83);
    v.push(0x1e);
    v.push(0xc7);
    proof {
        assert(v@ =~= usdt_bytes());
    }
    v
}

/// The bytes of the usdc address, 0xa0b86991c6218b36c1d19d4a2e9eb0ce3606eb48.
pub open spec fn usdc_bytes() -> Seq<u8> {
    seq![0xa0u8, 0xb8u8, 0x69u8, 0x91u8, 0xc6u8, 0x21u8, 0x8bu8, 0x36u8, 0xc1u8, 0xd1u8, 0x9du8, 0x4au8, 0x2eu8, 0x9eu8, 0xb0u8, 0xceu8, 0x36u8, 0x06u8, 0xebu8, 0x48u8]
}

fn usdc_vec() -> (v: Vec<u8>)
    ensures
        v@ == usdc_bytes(),
{
    let mut v: Vec<u8> = Vec::new();
    v.push(0xa0);
    v.push(0xb8);
    v.push(0x69);
    v.push(0x91);
    v.push(0xc6);
    v.push(0x21);
    v.push(0x8b);
    v.push(0x36);
    v.push(0xc1);
    v.push(0xd1);
    v.push(0x9d);
    v.push(0x4a);
    v.push(0x2e);
    v.push(0x9e);
    v.push(0xb0);
    v.push(0xce);
    v.push(0x36);
    v.push(0x06);
    v.push(0xeb);
    v.push(0x48);
    proof {
        assert(v@ =~= usdc_bytes());
    }
    v
}

/// The bytes of the bnb address, 0xB8c77482e45F1F44dE1745F52C74426C631bDD52.
pub open spec fn bnb_bytes() -> Seq<u8> {
    seq![0xb8u8, 0xc7u8, 0x74u8, 0x82u8, 0xe4u8, 0x5fu8, 0x1fu8, 0x44u8, 0xdeu8, 0x17u8, 0x45u8, 0xf5u8, 0x2cu8, 0x74u8, 0x42u8, 0x6cu8, 0x63u8, 0x1bu8, 0xddu8, 0x52u8]
}

fn bnb_vec() -> (v: Vec<u8>)
    ensures
        v@ == bnb_bytes(),
{
    let mut v: Vec<u8> = Vec::new();
    v.push(0xb8);
    v.push(0xc7);
    v.push(0x74);
    v.push(0x82);
    v.push(0xe4);
    v.push(0x5f);
    v.push(0x1f);
    v.push(0x44);
    v.push(0xde);
    v.push(0x17);
    v.push(0x45);
    v.push(0xf5);
    v.push(0x2c);
    v.push(0x74);
    v.push(0x42);
    v.push(0x6c);
    v.push(0x63);
    v.push(0x1b);
    v.push(0xdd);
    v.push(0x52);
    proof {
        assert(v@ =~= bnb_bytes());
    }
    v
}

/// The bytes of the dai address, 0x6b175474e89094c44da98b954eedeac495271d0f.
pub open spec fn dai_bytes() -> Seq<u8> {
    seq![0x6bu8, 0x17u8, 0x54u8, 0x74u8, 0xe8u8, 0x90u8, 0x94u8, 0xc4u8, 0x4du8, 0xa9u8, 0x8bu8, 0x95u8, 0x4eu8, 0xedu8, 0xeau8, 0xc4u8, 0x95u8, 0x27u8, 0x1du8, 0x0fu8]
}

fn dai_vec() -> (v: Vec<u8>)
    ensures
        v@ == dai_bytes(),
{
    let mut v: Vec<u8> = Vec::new();
    v.push(0x6b);
    v.push(0x17);
    v.push(0x54);
    v.push(0x74);
    v.push(0xe8);
    v.push(0x90);
    v.push(0x94);
    v.push(0xc4);
    v.push(0x4d);
    v.push(0xa9);
    v.push(0x8b);
    v.push(0x95);
    v.push(0x4e);
    v.push(0xed);
    v.push(0xea);
    v.push(0xc4);
    v.push(0x95);
    v.push(0x27);
    v.push(0x1d);
    v.push(0x0f);
    proof {
        assert(v@ =~= dai_bytes());
    }
    v
}

/// The bytes of the example_pool address, 0xa97642500517c728ce1339a466de0f10c19034cd.
pub open spec fn example_pool_bytes() -> Seq<u8> {
    seq![0xa9u8, 0x76u8, 0x42u8, 0x50u8, 0x05u8, 0x17u8, 0xc7u8, 0x28u8, 0xceu8, 0x13u8, 0x39u8, 0xa4u8, 0x66u8, 0xdeu8, 0x0fu8, 0x10u8, 0xc1u8, 0x90u8, 0x34u8, 0xcdu8]
}

fn example_pool_vec() -> (v: Vec<u8>)
    ensures
        v@ == example_pool_bytes(),
{
    let mut v: Vec<u8> = Vec::new();
    v.push(0xa9);
    v.push(0x76);
    v.push(0x42);
    v.push(0x50);
    v.push(0x05);
    v.push(0x17);
    v.push(0xc7);
    v.push(0x28);
    v.push(0xce);
    v.push(0x13);
    v.push(0x39);
    v.push(0xa4);
    v.push(0x66);
    v.push(0xde);
    v.push(0x0f);
    v.push(0x10);
    v.push(0xc1);
    v.push(0x90);
    v.push(0x34);
    v.push(0xcd);
    proof {
        assert(v@ =~= example_pool_bytes());
    }
    v
}

/// A known pool whose pair includes wrapped ether.
pub fn get_example_pool() -> (r: Option<Address>)
    ensures
        r is Some,
        r->0@ == example_pool_bytes(),
{
    Address::from_bytes(example_pool_vec())
}

/// A few well-known tokens by ticker.
pub fn get_example_tokens() -> (r: HashMap<String, Address>) {
    let mut m: HashMap<String, Address> = HashMap::new();
    insert_token(&mut m, "WETH", weth_vec());
    insert_token(&mut m, "USDT", usdt_vec());
    insert_token(&mut m, "USDC", usdc_vec());
    insert_token(&mut m, "BNB", bnb_vec());
    insert_token(&mut m, "DAI", dai_vec());
    m
}

fn insert_token(m: &mut HashMap<String, Address>, ticker: &str, bytes: Vec<u8>)
    requires
        bytes@.len() == 20,
{
    let a = match Address::from_bytes(bytes) {
        Some(a) => a,
        None => {
            return ;
        },  // unreachable: the caller hands 20 bytes
    };
    m.insert(ticker.to_string(), a);
}

} // verus!
