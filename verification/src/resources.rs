//! The document repository: a fixed catalog of documentation resources,
//! each identified by a URI. The catalog's metadata is built in; the text
//! bodies are supplied by the caller at startup.

use vstd::prelude::*;

use crate::text::{str_bytes, str_to_bytes};

verus! {

/// One immutable catalog document.
pub struct StaticResource {
    /// Unique identifier in `scheme://category/topic` form.
    pub uri: Vec<u8>,
    /// Display name.
    pub name: Vec<u8>,
    /// One-line description.
    pub description: Vec<u8>,
    /// MIME type of the content.
    pub mime_type: Vec<u8>,
    /// Full text body.
    pub content: Vec<u8>,
}

/// The value of a `StaticResource`, for specifications.
#[verifier::ext_equal]
pub struct DocView {
    pub uri: Seq<u8>,
    pub name: Seq<u8>,
    pub description: Seq<u8>,
    pub mime_type: Seq<u8>,
    pub content: Seq<u8>,
}

impl View for StaticResource {
    type V = DocView;

    open spec fn view(&self) -> DocView {
        DocView {
            uri: self.uri@,
            name: self.name@,
            description: self.description@,
            mime_type: self.mime_type@,
            content: self.content@,
        }
    }
}

impl DeepView for StaticResource {
    type V = DocView;

    open spec fn deep_view(&self) -> DocView {
        self@
    }
}

/// Builds one document with the Markdown content type.
pub fn resource(uri: &str, name: &str, description: &str, content: Vec<u8>) -> (r: StaticResource)
    ensures
        r@ == (DocView {
            uri: str_bytes(uri@),
            name: str_bytes(name@),
            description: str_bytes(description@),
            mime_type: str_bytes("text/markdown"@),
            content: content@,
        }),
{
    StaticResource {
        uri: str_to_bytes(uri),
        name: str_to_bytes(name),
        description: str_to_bytes(description),
        mime_type: str_to_bytes("text/markdown"),
        content,
    }
}

/// The catalog: thirteen documents in a fixed order, with the given text
/// bodies.
pub open spec fn spec_catalog(bodies: Seq<Seq<u8>>) -> Seq<DocView> {
    seq![
        DocView {
            uri: str_bytes("alloy://consensus/transactions"@),
            name: str_bytes("Transaction Types"@),
            description: str_bytes(
                "Guide to alloy transaction types: TxLegacy, TxEip1559, TxEip4844, TxEnvelope, etc."@,
            ),
            mime_type: str_bytes("text/markdown"@),
            content: bodies[0],
        },
        DocView {
            uri: str_bytes("alloy://eips/block-identifiers"@),
            name: str_bytes("Block Identifier Types"@),
            description: str_bytes(
                "Guide to BlockId, BlockNumberOrTag, HashOrNumber, and related types."@,
            ),
            mime_type: str_bytes("text/markdown"@),
            content: bodies[1],
        },
        DocView {
            uri: str_bytes("alloy://provider/setup"@),
            name: str_bytes("Provider Setup"@),
            description: str_bytes(
                "Guide to setting up alloy providers: ProviderBuilder, wallets, WebSocket, layers."@,
            ),
            mime_type: str_bytes("text/markdown"@),
            content: bodies[2],
        },
        DocView {
            uri: str_bytes("alloy://sol-macro/contract-bindings"@),
            name: str_bytes("sol! Macro & Contract Bindings"@),
            description: str_bytes(
                "Guide to sol! macro: contract interfaces, #[sol(rpc)], SolCall, SolEvent, type mapping."@,
            ),
            mime_type: str_bytes("text/markdown"@),
            content: bodies[3],
        },
        DocView {
            uri: str_bytes("alloy://signers/signing-guide"@),
            name: str_bytes("Signers & Signing Guide"@),
            description: str_bytes(
                "Guide to PrivateKeySigner, EthereumWallet, Signer trait, EIP-712 typed data signing."@,
            ),
            mime_type: str_bytes("text/markdown"@),
            content: bodies[4],
        },
        DocView {
            uri: str_bytes("alloy://primitives/core-types"@),
            name: str_bytes("Primitives & Core Types"@),
            description: str_bytes(
                "Guide to Address, B256, U256, Bytes, TxKind, keccak256, literal macros, conversions."@,
            ),
            mime_type: str_bytes("text/markdown"@),
            content: bodies[5],
        },
        DocView {
            uri: str_bytes("alloy://consensus/events"@),
            name: str_bytes("Event & Log Decoding"@),
            description: str_bytes(
                "Guide to SolEvent, SolEventInterface, log decoding, event filtering, subscriptions."@,
            ),
            mime_type: str_bytes("text/markdown"@),
            content: bodies[6],
        },
        DocView {
            uri: str_bytes("alloy://provider/fillers"@),
            name: str_bytes("Provider Fillers"@),
            description: str_bytes(
                "Guide to GasFiller, NonceFiller, ChainIdFiller, BlobGasFiller, custom filler configs."@,
            ),
            mime_type: str_bytes("text/markdown"@),
            content: bodies[7],
        },
        DocView {
            uri: str_bytes("alloy://sol-macro/sol-types"@),
            name: str_bytes("Sol Types: ABI Encoding & Decoding"@),
            description: str_bytes(
                "Guide to SolType, SolValue, SolStruct, SolCall traits for ABI encoding/decoding."@,
            ),
            mime_type: str_bytes("text/markdown"@),
            content: bodies[8],
        },
        DocView {
            uri: str_bytes("alloy://rpc/transaction-request"@),
            name: str_bytes("TransactionRequest Builder"@),
            description: str_bytes(
                "Guide to TransactionRequest: building, sending, gas config, blob txs, MEV bundles."@,
            ),
            mime_type: str_bytes("text/markdown"@),
            content: bodies[9],
        },
        DocView {
            uri: str_bytes("alloy://encoding/rlp-eip2718"@),
            name: str_bytes("RLP & EIP-2718 Encoding"@),
            description: str_bytes(
                "Guide to Encodable2718, Decodable2718, RLP encoding/decoding, transaction serialization."@,
            ),
            mime_type: str_bytes("text/markdown"@),
            content: bodies[10],
        },
        DocView {
            uri: str_bytes("alloy://encoding/blobs"@),
            name: str_bytes("Blob Transactions & Sidecars"@),
            description: str_bytes(
                "Guide to SidecarBuilder, SimpleCoder, BlobTransactionSidecar, blob transaction construction."@,
            ),
            mime_type: str_bytes("text/markdown"@),
            content: bodies[11],
        },
        DocView {
            uri: str_bytes("alloy://consensus/recovered"@),
            name: str_bytes("Recovered Transactions & Type Aliases"@),
            description: str_bytes(
                "Guide to Recovered<T>, sender recovery, custom transaction type aliases, DataCompat."@,
            ),
            mime_type: str_bytes("text/markdown"@),
            content: bodies[12],
        },
    ]
}

/// Every URI in the catalog is unique, whatever text bodies are supplied:
/// any two catalog entries differ in their URI's length or in its ninth
/// byte.
#[verifier::rlimit(100)]
pub proof fn lemma_catalog_uris_unique(bodies: Seq<Seq<u8>>)
    ensures
        forall|i: int, j: int|
            0 <= i < j < spec_catalog(bodies).len() ==> (#[trigger] spec_catalog(bodies)[i]).uri
                != (#[trigger] spec_catalog(bodies)[j]).uri,
{
    broadcast use vstd::utf8::is_ascii_chars_encode_utf8;

    reveal_strlit("alloy://consensus/transactions");
    reveal_strlit("alloy://eips/block-identifiers");
    reveal_strlit("alloy://provider/setup");
    reveal_strlit("alloy://sol-macro/contract-bindings");
    reveal_strlit("alloy://signers/signing-guide");
    reveal_strlit("alloy://primitives/core-types");
    reveal_strlit("alloy://consensus/events");
    reveal_strlit("alloy://provider/fillers");
    reveal_strlit("alloy://sol-macro/sol-types");
    reveal_strlit("alloy://rpc/transaction-request");
    reveal_strlit("alloy://encoding/rlp-eip2718");
    reveal_strlit("alloy://encoding/blobs");
    reveal_strlit("alloy://consensus/recovered");
    assert(vstd::utf8::is_ascii_chars("alloy://consensus/transactions"@));
    assert(vstd::utf8::is_ascii_chars("alloy://eips/block-identifiers"@));
    assert(vstd::utf8::is_ascii_chars("alloy://provider/setup"@));
    assert(vstd::utf8::is_ascii_chars("alloy://sol-macro/contract-bindings"@));
    assert(vstd::utf8::is_ascii_chars("alloy://signers/signing-guide"@));
    assert(vstd::utf8::is_ascii_chars("alloy://primitives/core-types"@));
    assert(vstd::utf8::is_ascii_chars("alloy://consensus/events"@));
    assert(vstd::utf8::is_ascii_chars("alloy://provider/fillers"@));
    assert(vstd::utf8::is_ascii_chars("alloy://sol-macro/sol-types"@));
    assert(vstd::utf8::is_ascii_chars("alloy://rpc/transaction-request"@));
    assert(vstd::utf8::is_ascii_chars("alloy://encoding/rlp-eip2718"@));
    assert(vstd::utf8::is_ascii_chars("alloy://encoding/blobs"@));
    assert(vstd::utf8::is_ascii_chars("alloy://consensus/recovered"@));
    let c = spec_catalog(bodies);
    assert(c[0].uri.len() == 30 && c[0].uri[8] == 99);
    assert(c[1].uri.len() == 30 && c[1].uri[8] == 101);
    assert(c[2].uri.len() == 22 && c[2].uri[8] == 112);
    assert(c[3].uri.len() == 35 && c[3].uri[8] == 115);
    assert(c[4].uri.len() == 29 && c[4].uri[8] == 115);
    assert(c[5].uri.len() == 29 && c[5].uri[8] == 112);
    assert(c[6].uri.len() == 24 && c[6].uri[8] == 99);
    assert(c[7].uri.len() == 24 && c[7].uri[8] == 112);
    assert(c[8].uri.len() == 27 && c[8].uri[8] == 115);
    assert(c[9].uri.len() == 31 && c[9].uri[8] == 114);
    assert(c[10].uri.len() == 28 && c[10].uri[8] == 101);
    assert(c[11].uri.len() == 22 && c[11].uri[8] == 101);
    assert(c[12].uri.len() == 27 && c[12].uri[8] == 99);
    assert forall|i: int, j: int| 0 <= i < j < c.len() implies (#[trigger] c[i]).uri != (
    #[trigger] c[j]).uri by {
        assert(c[i].uri.len() != c[j].uri.len() || c[i].uri[8] != c[j].uri[8]);
    }
}

/// Returns the full catalog, pairing the built-in metadata with the given
/// thirteen text bodies, in catalog order.
#[verifier::rlimit(100)]
#[verifier::spinoff_prover]
pub fn all(bodies: Vec<Vec<u8>>) -> (r: Vec<StaticResource>)
    requires
        bodies@.len() == 13,
    ensures
        r.deep_view() == spec_catalog(bodies.deep_view()),
{
    let mut r: Vec<StaticResource> = Vec::new();
    r.push(
        resource(
            "alloy://consensus/transactions",
            "Transaction Types",
            "Guide to alloy transaction types: TxLegacy, TxEip1559, TxEip4844, TxEnvelope, etc.",
            bodies[0].clone(),
        ),
    );
    r.push(
        resource(
            "alloy://eips/block-identifiers",
            "Block Identifier Types",
            "Guide to BlockId, BlockNumberOrTag, HashOrNumber, and related types.",
            bodies[1].clone(),
        ),
    );
    r.push(
        resource(
            "alloy://provider/setup",
            "Provider Setup",
            "Guide to setting up alloy providers: ProviderBuilder, wallets, WebSocket, layers.",
            bodies[2].clone(),
        ),
    );
    r.push(
        resource(
            "alloy://sol-macro/contract-bindings",
            "sol! Macro & Contract Bindings",
            "Guide to sol! macro: contract interfaces, #[sol(rpc)], SolCall, SolEvent, type mapping.",
            bodies[3].clone(),
        ),
    );
    r.push(
        resource(
            "alloy://signers/signing-guide",
            "Signers & Signing Guide",
            "Guide to PrivateKeySigner, EthereumWallet, Signer trait, EIP-712 typed data signing.",
            bodies[4].clone(),
        ),
    );
    r.push(
        resource(
            "alloy://primitives/core-types",
            "Primitives & Core Types",
            "Guide to Address, B256, U256, Bytes, TxKind, keccak256, literal macros, conversions.",
            bodies[5].clone(),
        ),
    );
    r.push(
        resource(
            "alloy://consensus/events",
            "Event & Log Decoding",
            "Guide to SolEvent, SolEventInterface, log decoding, event filtering, subscriptions.",
            bodies[6].clone(),
        ),
    );
    r.push(
        resource(
            "alloy://provider/fillers",
            "Provider Fillers",
            "Guide to GasFiller, NonceFiller, ChainIdFiller, BlobGasFiller, custom filler configs.",
            bodies[7].clone(),
        ),
    );
    r.push(
        resource(
            "alloy://sol-macro/sol-types",
            "Sol Types: ABI Encoding & Decoding",
            "Guide to SolType, SolValue, SolStruct, SolCall traits for ABI encoding/decoding.",
            bodies[8].clone(),
        ),
    );
    r.push(
        resource(
            "alloy://rpc/transaction-request",
            "TransactionRequest Builder",
            "Guide to TransactionRequest: building, sending, gas config, blob txs, MEV bundles.",
            bodies[9].clone(),
        ),
    );
    r.push(
        resource(
            "alloy://encoding/rlp-eip2718",
            "RLP & EIP-2718 Encoding",
            "Guide to Encodable2718, Decodable2718, RLP encoding/decoding, transaction serialization.",
            bodies[10].clone(),
        ),
    );
    r.push(
        resource(
            "alloy://encoding/blobs",
            "Blob Transactions & Sidecars",
            "Guide to SidecarBuilder, SimpleCoder, BlobTransactionSidecar, blob transaction construction.",
            bodies[11].clone(),
        ),
    );
    r.push(
        resource(
            "alloy://consensus/recovered",
            "Recovered Transactions & Type Aliases",
            "Guide to Recovered<T>, sender recovery, custom transaction type aliases, DataCompat.",
            bodies[12].clone(),
        ),
    );
    proof {
        assert(bodies@[0]@ =~= bodies.deep_view()[0]);
        assert(bodies@[1]@ =~= bodies.deep_view()[1]);
        assert(bodies@[2]@ =~= bodies.deep_view()[2]);
        assert(bodies@[3]@ =~= bodies.deep_view()[3]);
        assert(bodies@[4]@ =~= bodies.deep_view()[4]);
        assert(bodies@[5]@ =~= bodies.deep_view()[5]);
        assert(bodies@[6]@ =~= bodies.deep_view()[6]);
        assert(bodies@[7]@ =~= bodies.deep_view()[7]);
        assert(bodies@[8]@ =~= bodies.deep_view()[8]);
        assert(bodies@[9]@ =~= bodies.deep_view()[9]);
        assert(bodies@[10]@ =~= bodies.deep_view()[10]);
        assert(bodies@[11]@ =~= bodies.deep_view()[11]);
        assert(bodies@[12]@ =~= bodies.deep_view()[12]);
        assert(r.deep_view() =~~= spec_catalog(bodies.deep_view()));
    }
    r
}

} // verus!
