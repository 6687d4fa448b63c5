# fluxion

Verified support library for battery scheduling against spot electricity
prices, written in Verus.

- `src/` — the library, checked by Verus:
  - `i18n`, `catalog`: user-interface languages and translation catalogues
    (Fluent bundles looked up in domain order);
  - `time`: calendar dates and UTC date-times as plain values;
  - `pricing`: HDO (ripple-control) tariff schedules — parsing, the tariff
    cache and low-tariff lookups;
  - `seasonal`: seasonal modes and the rules that switch between them;
  - `locking`: locking decided schedule blocks against re-evaluation;
  - `plan`, `periods`, `ranking`, `opportunity`: the integer side of day
    plans — runs of flagged blocks, valley/peak windows, choosing blocks by
    price rank, bridging gaps between charge blocks, holding the charge;
  - `text`: the string handling these need (trimming, splitting, number
    parsing, searching).
- `tests/` — tests of the library.
- `app/` — glue that Verus does not check: floating-point price arithmetic,
  `chrono` conversions, loading translation files, serde and error-trait
  forms of library types.
