# lira_analyzer

Reads structural models of the LIRA-SAPR analysis package, finds the groups
of elements that are joined through shared nodes, and reports on them.

The library (`src/`) is written in Verus and verified:

- `types` — elements, groups and their counters;
- `id_lists`, `graph` — the node index, the element graph and the search for
  connected groups, bridges and link counts;
- `text`, `lira_file` — text primitives and the reading of LIRA document
  files (`(number/ ... )` documents, coordinates of document 4, elements of
  document 1);
- `text_format`, `patterns`, `lir_parser` — the text model format (sections,
  node and element lines), format detection, conversion of document files,
  the SLI element entries and the decoding of binary files;
- `sortament` (diameters and exact section areas), `render`, `report`, `performance`, `decoding` — reinforcement
  diameters, rendering decisions, report figures and settings;
- `xml_tags`, `sli` — the start tags of an XML text (read by the `xml`
  crate) and the two readings of SLI files built on them: points, elements
  with node numbers and vertices, and materials, with decimal values kept as
  text;
- `element_matching` — numbering the elements of an SLI file after the text
  document file by a key per element, and comparing both numberings;
- `canvas` — which shapes of each level the floor-plan canvas draws within
  its limits.

`app/` is the command-line program around it: file access,
floating-point coordinates and areas, drawing and the DOCX output, and the coordinate
keys and level heights that the matching and the canvas work from.
