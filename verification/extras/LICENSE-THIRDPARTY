Third-party notice
==================

The Jonker-Volgenant linear assignment solver (the matching bookkeeping in
src/assignment.rs and src/path_search.rs, and the distance and dual
updates in app/lap.rs) is based on lapjv-rust v0.3.0
(https://github.com/Antti/lapjv-rust, commit
cce816a08c014f484456223754b167d4aef0e01d), reworked for f64-only flat
row-major buffers. lapjv-rust is distributed under the MIT License:

MIT License

Copyright (c) 2018-2021 Andrii Dmytrenko

Permission is hereby granted, free of charge, to any person obtaining a copy
of this software and associated documentation files (the "Software"), to deal
in the Software without restriction, including without limitation the rights
to use, copy, modify, merge, publish, distribute, sublicense, and/or sell
copies of the Software, and to permit persons to whom the Software is
furnished to do so, subject to the following conditions:

The above copyright notice and this permission notice shall be included in all
copies or substantial portions of the Software.

THE SOFTWARE IS PROVIDED "AS IS", WITHOUT WARRANTY OF ANY KIND, EXPRESS OR
IMPLIED, INCLUDING BUT NOT LIMITED TO THE WARRANTIES OF MERCHANTABILITY,
FITNESS FOR A PARTICULAR PURPOSE AND NONINFRINGEMENT. IN NO EVENT SHALL THE
AUTHORS OR COPYRIGHT HOLDERS BE LIABLE FOR ANY CLAIM, DAMAGES OR OTHER
LIABILITY, WHETHER IN AN ACTION OF CONTRACT, TORT OR OTHERWISE, ARISING FROM,
OUT OF OR IN CONNECTION WITH THE SOFTWARE OR THE USE OR OTHER DEALINGS IN THE
SOFTWARE.

The algorithm: R. Jonker and A. Volgenant, "A Shortest Augmenting Path
Algorithm for Dense and Sparse Linear Assignment Problems", Computing 38,
325-340 (1987).
