# logan_qwen4

The decisions of an inference engine for mixture-of-experts language models, verified with
[Verus](https://github.com/verus-lang/verus).

`src/` is the verified library. It works on plain values: a floating-point number is its bit
pattern, a file is its bytes, a device is what it answers. Every public function states what it
returns in its contract, and the properties that span several functions stand as public proof
functions whose names begin with `law_`.

`app/` is the program around it: files, the environment, and the floating-point kernels.

`tests/` runs the library on concrete values.
