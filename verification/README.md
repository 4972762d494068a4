# grind_test

The study engine of an exam-prep tool, verified with Verus. Give it a syllabus; it plans
which topics to study and when, builds the prompts that ask a model for notes, quizzes and
session questions, checks what comes back, grades the answers and moves each topic along a
review ladder (1 → 2 → 4 → 7 → 14 → 30 days).

- `src/` — the library. Every function carries a contract over a mathematical model of its
  data (`Seq`, `Map`, spec functions and views) and is proved by Verus.
  - `syllabus`, `knowledge`, `paths`: the syllabus grammar, study notes with their front
    matter, and where everything lives in a vault.
  - `study`: the review ladder, the schedulers (due reviews first, a sprint over unseen
    topics, a spread across the syllabus leaning toward the weakest, reading), the overview.
  - `quiz`, `progress`: questions, grading, attempts and the mastery table.
  - `generate`: prompt assembly and what is made of the generator's replies: notes, quizzes,
    hints, sessions and their grading, batches of notes.
  - `agy`: the model tiers, the command line the model CLI is run with, and reading its reply.
  - `time`, `order`, `text`: timestamps through `chrono`, listing orders, and the string
    operations the rest is built on.
- `tests/` — tests run against the compiled library.
- `app/` — the `grind` command line: files, processes, the model CLI, and printing.

Laws the library proves include the front-matter round trip
(`knowledge::lemma_front_matter_round_trip`), the ladder's steps
(`study::lemma_ladder_steps`, `study::lemma_ladder_monotone`), a spread drawing one topic
from each slice of the syllabus (`study::lemma_spread_within_slices`), a blank topic
keeping its schedule (`generate::session::lemma_blank_topics_keep_their_schedule`), the
numbering of a parsed syllabus and the distinctness of its topic ids
(`syllabus::lemma_parse_numbers_by_place`, `syllabus::lemma_parsed_topic_ids_distinct`),
the shape of a slug (`paths::lemma_slug_shape`) and the bounds of a subject's dashboard
(`progress::lemma_stats_stay_in_bounds`).
