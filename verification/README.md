# decl-shadow-test

A small site tool that serves (`serve [-p PORT]`) or generates
(`build [-s SOURCE] [-o OUT]`) a site whose HTML pages use declarative
shadow DOM components:

* `<template component="x-name" shadow="open">` defines a component; every
  `<x-name>` element gets a `<template shadowrootmode="open">` child holding
  the definition's contents (scripts removed), and the contents of every
  `<template mixin global>`.
* local assets referenced by `<link href>`, `<script src>`, import maps and
  marked lines of `<style>` sheets get a `?cachebust=<digest>` parameter, the
  digest being the URL-safe base64 of the file's SHA-256.

Layout:

* `src/` — the verified library: the document model (`dom`), HTML parsing
  through html5ever (`html`), component inlining (`facet`), cache busting
  (`cachebuster`, `css`), command line (`cli`) and settings (`server`, `ssg`). Every function has a contract and
  the properties of the rewriters are stated as proof functions (`law_*`).
* `app/` — the program around it: HTTP server, file system, HTML
  serialization, parsing JSON import maps.
* `tests/` — tests of the library on concrete documents.
