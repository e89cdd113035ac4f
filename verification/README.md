# anonym-mcp

An MCP server that masks sensitive values (Turkish national IDs, IBANs, card
numbers, e-mail addresses, phone numbers, passwords, a custom word list) with
stable placeholders such as `TCKN_1` before an AI agent reads a file, and turns
the placeholders back into the real values when the agent writes back. The
mapping table never leaves the machine.

## Layout

- `src/` is the library, verified with Verus:
  - `text.rs`: UTF-8 spans, string comparison, trimming, decimal numbers.
  - `pattern.rs`: the search patterns, and the calls into the `regex` crate.
  - `detectors.rs`: the value classes, their checksums (Luhn, TCKN), and
    `detect`, which returns non-overlapping matches in ascending order.
  - `store.rs`: the value/placeholder table and how placeholders are minted.
  - `anonymize.rs`: masking a text and restoring it.
  - `roundtrip.rs`: what masking and restoring promise together.
  - `config.rs`: settings from the configuration values.
  - `documents.rs`, `xml.rs`: file kinds, PDF text classification, the text
    nodes of OOXML parts (through `quick-xml`).
  - `archive.rs`: OOXML archives as member lists (through `zip`): a
    document's text, and rewriting its text nodes with every other member
    copied verbatim.
  - `edit.rs`: finding and replacing a string for an edit.
  - `tools.rs`, `protocol.rs`: what each tool and JSON-RPC method decides and
    answers.
- `app/` is the program: the stdio loop, JSON, file I/O, PDF text
  extraction, and OCR on macOS.
- `tests/` exercises the library on concrete inputs.

## Configuration

| Variable | Default | Meaning |
|---|---|---|
| `ANONYM_MAPPINGS` | `~/.anonym-mcp/mappings.json` | Mapping table location (written `0600`) |
| `ANONYM_ROOTS` | *(unbounded)* | Colon-separated directories the server may touch |
| `ANONYM_WORDS` | *(empty)* | Comma-separated extra words to mask |
| `ANONYM_DETECTORS` | *(engine default)* | Comma-separated detector names |
| `ANONYM_ALLOW_REVEAL` | `0` | Also offer `restore_text` |

Files read as text (anything but an OOXML document or a PDF) above 256 KB
are not read. Images and PDFs are masked one
way only: their words are pixels or bound to a layout, so writes and edits
to them are refused.
